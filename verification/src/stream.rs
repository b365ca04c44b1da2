//! The content stream of a payload: what the characters of a text put on it,
//! pass after pass, and the windows that the packets cut out of it.

use vstd::math::{max, min};
use vstd::prelude::*;

use crate::colors::CoolLEDColors;
use crate::font::{gated_span, glyph_span, lemma_span_len, Font};

verus! {

/// The bytes of `stream` from index `skip` on, `needed` of them or as many as
/// the stream still has.
pub open spec fn window(stream: Seq<u8>, skip: int, needed: int) -> Seq<u8> {
    stream.subrange(min(skip, stream.len() as int), min(skip + needed, stream.len() as int))
}

/// The bytes that the characters of `phrase` put on the stream in one pass in
/// which all of them are lit: the sum of the lengths of their spans.
pub open spec fn text_spans_len(font: Font, phrase: Seq<char>) -> nat
    decreases phrase.len(),
{
    if phrase.len() == 0 {
        0
    } else {
        text_spans_len(font, phrase.drop_last()) + glyph_span(font.glyph(phrase.last()), 2).len()
    }
}

/// What step `j` of the walk over a phrase puts on the stream. The walk goes
/// over the phrase pass after pass, so step `j` is character `j % n` of the
/// phrase in pass `j / n`, where `n` is the length of the phrase. The
/// character has the colour at its index in the phrase, modulo the number of
/// colours.
pub open spec fn text_span(
    font: Font,
    phrase: Seq<char>,
    colors: Seq<CoolLEDColors>,
    j: int,
) -> Seq<u8> {
    let n = phrase.len() as int;
    let i = j % n;
    gated_span(font.glyph(phrase[i]), 2, colors[i % (colors.len() as int)], j / n)
}

/// What the first `k` steps of the walk over a phrase put on the stream.
pub open spec fn text_stream_upto(
    font: Font,
    phrase: Seq<char>,
    colors: Seq<CoolLEDColors>,
    k: int,
) -> Seq<u8>
    decreases k,
{
    if k <= 0 {
        Seq::empty()
    } else {
        text_stream_upto(font, phrase, colors, k - 1) + text_span(font, phrase, colors, k - 1)
    }
}

/// The content stream of a text: what three passes over the phrase put on
/// the stream, the red pass first, then the green one, then the blue one.
pub open spec fn text_stream(font: Font, phrase: Seq<char>, colors: Seq<CoolLEDColors>) -> Seq<u8> {
    text_stream_upto(font, phrase, colors, 3 * (phrase.len() as int))
}

/// What the characters of a prefix of a phrase put on the stream is no more
/// than what those of the whole phrase put there, and every character puts
/// at least four bytes there.
pub proof fn lemma_text_spans_len(font: Font, phrase: Seq<char>, i: int)
    requires
        font.wf(),
        0 <= i <= phrase.len(),
    ensures
        4 * i <= text_spans_len(font, phrase.subrange(0, i)) <= text_spans_len(font, phrase),
        text_spans_len(font, phrase) <= 34 * phrase.len(),
        i < phrase.len() ==> text_spans_len(font, phrase.subrange(0, i + 1)) == text_spans_len(
            font,
            phrase.subrange(0, i),
        ) + glyph_span(font.glyph(phrase[i]), 2).len(),
    decreases phrase.len(),
{
    if phrase.len() == 0 {
        assert(phrase.subrange(0, i) =~= phrase);
    } else {
        let c = phrase.last();
        font.lemma_glyph_len(c);
        lemma_span_len(font.glyph(c), 2, CoolLEDColors::White, 0);
        if i == phrase.len() {
            assert(phrase.subrange(0, i) =~= phrase);
            lemma_text_spans_len(font, phrase.drop_last(), i - 1);
            assert(phrase.drop_last().subrange(0, i - 1) =~= phrase.drop_last());
        } else {
            lemma_text_spans_len(font, phrase.drop_last(), i);
            assert(phrase.drop_last().subrange(0, i) =~= phrase.subrange(0, i));
            assert(phrase.subrange(0, i + 1).drop_last() =~= phrase.subrange(0, i));
            assert(phrase.subrange(0, i + 1).last() == phrase[i]);
        }
    }
}

/// A window is never longer than what was asked for, and a longer stream
/// gives a window that is at least as long.
pub proof fn lemma_window_len(stream: Seq<u8>, longer: Seq<u8>, skip: int, needed: int)
    requires
        0 <= skip,
        0 <= needed,
        stream.len() <= longer.len(),
    ensures
        window(stream, skip, needed).len() <= window(longer, skip, needed).len() <= needed,
        window(stream, skip, needed).len() == min(skip + needed, stream.len() as int) - min(
            skip,
            stream.len() as int,
        ),
{
}

/// How a window grows when a span is added to the end of its stream. If the
/// window starts behind the span, it stays as it is. If not, it takes from
/// the span what lies at or behind its start, as far as the span reaches and
/// the window still has room. In no case is it longer than the window of a
/// stream that is longer still.
pub proof fn lemma_window_step(
    sofar: Seq<u8>,
    span: Seq<u8>,
    longer: Seq<u8>,
    skip: int,
    needed: int,
)
    requires
        0 <= skip,
        0 <= needed,
        (sofar + span).len() <= longer.len(),
    ensures
        ({
            let before = window(sofar, skip, needed);
            let after = window(sofar + span, skip, needed);
            let skip_left = max(skip - sofar.len(), 0);
            let take = min(span.len() - skip_left, needed - before.len());
            &&& before.len() <= after.len() <= window(longer, skip, needed).len()
            &&& skip_left >= span.len() ==> after == before
            &&& skip_left < span.len() ==> 0 <= take && after == before + span.subrange(
                skip_left,
                skip_left + take,
            )
            &&& max(skip - (sofar + span).len(), 0) == max(skip_left - span.len(), 0)
        }),
{
    let before = window(sofar, skip, needed);
    let after = window(sofar + span, skip, needed);
    let skip_left = max(skip - sofar.len(), 0);
    let take = min(span.len() - skip_left, needed - before.len());
    lemma_window_len(sofar, sofar + span, skip, needed);
    lemma_window_len(sofar + span, longer, skip, needed);
    if skip_left >= span.len() {
        assert(after =~= before);
    } else {
        assert(after =~= before + span.subrange(skip_left, skip_left + take));
    }
}

/// The stream of a text grows with every step of the walk, and by no more
/// than 34 bytes a step.
pub proof fn lemma_text_stream_upto_len(
    font: Font,
    phrase: Seq<char>,
    colors: Seq<CoolLEDColors>,
    j: int,
    k: int,
)
    requires
        font.wf(),
        phrase.len() > 0,
        0 <= j <= k,
    ensures
        text_stream_upto(font, phrase, colors, j).len() <= text_stream_upto(
            font,
            phrase,
            colors,
            k,
        ).len(),
        text_stream_upto(font, phrase, colors, k).len() <= 34 * k,
    decreases k,
{
    if k > 0 {
        let n = phrase.len() as int;
        let i = (k - 1) % n;
        font.lemma_glyph_len(phrase[i]);
        lemma_span_len(font.glyph(phrase[i]), 2, colors[i % (colors.len() as int)], (k - 1) / n);
        if j < k {
            lemma_text_stream_upto_len(font, phrase, colors, j, k - 1);
        } else {
            lemma_text_stream_upto_len(font, phrase, colors, j - 1, k - 1);
        }
    }
}

} // verus!
