//! What all frames share: the escaping of control bytes and the checksum.

use vstd::prelude::*;

verus! {

/// The bytes the display reads as frame markers: start of frame (1), escape
/// (2) and end of frame (3). Inside a frame they never travel as they are.
pub open spec fn is_control(b: u8) -> bool {
    1 <= b <= 3
}

/// How one byte travels inside a frame: a control byte becomes the escape
/// marker followed by the byte with bit 2 flipped, any other byte stays.
pub open spec fn escape_byte(b: u8) -> Seq<u8> {
    if is_control(b) {
        seq![2u8, b ^ 4u8]
    } else {
        seq![b]
    }
}

/// The escaped form of a byte string: every byte replaced by its
/// `escape_byte`, in order.
pub open spec fn escape(s: Seq<u8>) -> Seq<u8>
    decreases s.len(),
{
    if s.len() == 0 {
        Seq::empty()
    } else {
        escape_byte(s[0]) + escape(s.drop_first())
    }
}

/// What a receiver reads back from escaped bytes: an escape marker and the
/// byte after it stand for that byte with bit 2 flipped, any other byte
/// stands for itself.
pub open spec fn unescape(s: Seq<u8>) -> Seq<u8>
    decreases s.len(),
{
    if s.len() == 0 {
        Seq::empty()
    } else if s[0] == 2 && s.len() >= 2 {
        seq![s[1] ^ 4u8] + unescape(s.subrange(2, s.len() as int))
    } else {
        seq![s[0]] + unescape(s.drop_first())
    }
}

/// The checksum of a byte string: all its bytes folded with exclusive or,
/// starting from zero.
pub open spec fn checksum(s: Seq<u8>) -> u8
    decreases s.len(),
{
    if s.len() == 0 {
        0
    } else {
        checksum(s.drop_last()) ^ s.last()
    }
}

/// `base` with the bytes from `at` on replaced by `content`, as far as
/// `content` reaches; the rest of `base` stays.
pub open spec fn splice(base: Seq<u8>, at: int, content: Seq<u8>) -> Seq<u8> {
    base.subrange(0, at) + content + base.subrange(at + content.len(), base.len() as int)
}

/// `n` zero bytes.
pub open spec fn zeros(n: nat) -> Seq<u8> {
    Seq::new(n, |i: int| 0u8)
}

/// A splice is as long as its base, holds the content from `at` on and the
/// base everywhere else.
pub proof fn lemma_splice(base: Seq<u8>, at: int, content: Seq<u8>)
    requires
        0 <= at,
        at + content.len() <= base.len(),
    ensures
        splice(base, at, content).len() == base.len(),
        splice(base, at, content).subrange(at, at + content.len()) == content,
        forall|i: int|
            0 <= i < base.len() ==> #[trigger] splice(base, at, content)[i] == (if at <= i < at
                + content.len() {
                content[i - at]
            } else {
                base[i]
            }),
{
    assert(splice(base, at, content).subrange(at, at + content.len()) =~= content);
}

/// Writing `b` right behind `a` is writing `a + b`.
pub proof fn lemma_splice_append(base: Seq<u8>, at: int, a: Seq<u8>, b: Seq<u8>)
    requires
        0 <= at,
        at + a.len() + b.len() <= base.len(),
    ensures
        splice(splice(base, at, a), at + a.len(), b) == splice(base, at, a + b),
{
    assert(splice(splice(base, at, a), at + a.len(), b) =~= splice(base, at, a + b));
}

/// Flipping bit 2 twice gives the byte back, and the flipped form of a
/// control byte is no control byte and no escape marker.
pub proof fn lemma_flip(b: u8)
    ensures
        (b ^ 4u8) ^ 4u8 == b,
        is_control(b) ==> 5 <= (b ^ 4u8) <= 7,
{
    assert((b ^ 4u8) ^ 4u8 == b) by (bit_vector);
    assert(1 <= b <= 3 ==> 5 <= (b ^ 4u8) <= 7) by (bit_vector);
}

/// Escaping distributes over concatenation.
pub proof fn lemma_escape_concat(a: Seq<u8>, b: Seq<u8>)
    ensures
        escape(a + b) == escape(a) + escape(b),
    decreases a.len(),
{
    if a.len() == 0 {
        assert(a + b =~= b);
        assert(escape(a) + escape(b) =~= escape(b));
    } else {
        lemma_escape_concat(a.drop_first(), b);
        assert((a + b).drop_first() =~= a.drop_first() + b);
        assert(escape(a + b) =~= escape(a) + escape(b));
    }
}

/// Escaping a string with one more byte at its end appends that byte's
/// escaped form.
pub proof fn lemma_escape_push(s: Seq<u8>, b: u8)
    ensures
        escape(s.push(b)) == escape(s) + escape_byte(b),
{
    lemma_escape_concat(s, seq![b]);
    assert(s.push(b) =~= s + seq![b]);
    assert(seq![b].drop_first() =~= Seq::<u8>::empty());
    assert(escape(Seq::<u8>::empty()) =~= Seq::<u8>::empty());
    assert(escape(seq![b]) =~= escape_byte(b));
}

/// Escaping never shortens a string and at most doubles it.
pub proof fn lemma_escape_len(s: Seq<u8>)
    ensures
        s.len() <= escape(s).len() <= 2 * s.len(),
    decreases s.len(),
{
    if s.len() > 0 {
        lemma_escape_len(s.drop_first());
    }
}

/// The escaped form of a prefix is no longer than that of the whole string.
pub proof fn lemma_escape_prefix_len(s: Seq<u8>, i: int)
    requires
        0 <= i <= s.len(),
    ensures
        escape(s.subrange(0, i)).len() <= escape(s).len(),
{
    lemma_escape_concat(s.subrange(0, i), s.subrange(i, s.len() as int));
    assert(s.subrange(0, i) + s.subrange(i, s.len() as int) =~= s);
}

/// Escaped bytes hold neither the start marker nor the end marker.
pub proof fn lemma_escape_no_marker(s: Seq<u8>)
    ensures
        forall|i: int| 0 <= i < escape(s).len() ==> escape(s)[i] != 1 && escape(s)[i] != 3,
    decreases s.len(),
{
    if s.len() > 0 {
        lemma_escape_no_marker(s.drop_first());
        lemma_flip(s[0]);
        let head = escape_byte(s[0]);
        let rest = escape(s.drop_first());
        assert forall|i: int| 0 <= i < escape(s).len() implies escape(s)[i] != 1 && escape(s)[i]
            != 3 by {
            if i >= head.len() {
                assert(escape(s)[i] == rest[i - head.len()]);
            }
        }
    }
}

/// Reading escaped bytes back gives the bytes that were escaped: for every
/// byte string `s`, `unescape(escape(s)) == s`.
pub proof fn lemma_unescape_escape(s: Seq<u8>)
    ensures
        unescape(escape(s)) == s,
    decreases s.len(),
{
    if s.len() > 0 {
        let b = s[0];
        let rest = escape(s.drop_first());
        let e = escape(s);
        lemma_unescape_escape(s.drop_first());
        lemma_flip(b);
        if is_control(b) {
            assert(e.subrange(2, e.len() as int) =~= rest);
            assert(unescape(e) =~= seq![b] + s.drop_first());
        } else {
            assert(e.drop_first() =~= rest);
            assert(unescape(e) =~= seq![b] + s.drop_first());
        }
        assert(seq![b] + s.drop_first() =~= s);
    }
}

/// Escapes the first `current_bytes_wrote` bytes of `out` where they lie and
/// returns the length of the escaped form.
///
/// The escaped form starts at index 0 and grows by one byte for every
/// control byte among the bytes escaped, so `out` must have room for it.
/// What lies behind the escaped form is left as it was.
pub fn escape_byets_in_place(out: &mut [u8], current_bytes_wrote: usize) -> (n: usize)
    requires
        current_bytes_wrote <= old(out).len(),
        escape(old(out)@.subrange(0, current_bytes_wrote as int)).len() <= old(out).len(),
    ensures
        n == escape(old(out)@.subrange(0, current_bytes_wrote as int)).len(),
        final(out)@ == splice(
            old(out)@,
            0,
            escape(old(out)@.subrange(0, current_bytes_wrote as int)),
        ),
{
    let ghost src = out@.subrange(0, current_bytes_wrote as int);
    // First pass: the length of the escaped form.
    let mut total: usize = 0;
    let mut i: usize = 0;
    while i < current_bytes_wrote
        invariant
            i <= current_bytes_wrote <= out.len(),
            out@ == old(out)@,
            src == out@.subrange(0, current_bytes_wrote as int),
            escape(src).len() <= out.len(),
            total == escape(src.subrange(0, i as int)).len(),
        decreases current_bytes_wrote - i,
    {
        let b = out[i];
        proof {
            lemma_escape_push(src.subrange(0, i as int), b);
            assert(src.subrange(0, i + 1) =~= src.subrange(0, i as int).push(b));
            lemma_escape_prefix_len(src, i + 1);
        }
        if b > 0 && b < 4 {
            total += 2;
        } else {
            total += 1;
        }
        i += 1;
    }
    proof {
        assert(src.subrange(0, current_bytes_wrote as int) =~= src);
        lemma_escape_len(src);
        assert(src.subrange(current_bytes_wrote as int, current_bytes_wrote as int) =~= Seq::<
            u8,
        >::empty());
    }
    // Second pass, from the back: each byte moves to its final place before
    // anything is written over it.
    let mut j: usize = total;
    while i > 0
        invariant
            i <= current_bytes_wrote <= out.len(),
            out@.len() == old(out)@.len(),
            src == old(out)@.subrange(0, current_bytes_wrote as int),
            total == escape(src).len(),
            total <= out.len(),
            j == escape(src.subrange(0, i as int)).len(),
            i <= j <= total,
            out@.subrange(0, i as int) == src.subrange(0, i as int),
            out@.subrange(j as int, total as int) == escape(
                src.subrange(i as int, current_bytes_wrote as int),
            ),
            out@.subrange(total as int, out@.len() as int) == old(out)@.subrange(
                total as int,
                out@.len() as int,
            ),
        decreases i,
    {
        let ghost before = out@;
        let ghost done = src.subrange(i as int, current_bytes_wrote as int);
        i -= 1;
        let b = out[i];
        proof {
            assert(before.subrange(0, i + 1)[i as int] == src.subrange(0, i + 1)[i as int]);
            assert(b == src[i as int]);
            lemma_escape_push(src.subrange(0, i as int), b);
            assert(src.subrange(0, i + 1) =~= src.subrange(0, i as int).push(b));
            lemma_escape_len(src.subrange(0, i as int));
            assert(src.subrange(i as int, current_bytes_wrote as int).drop_first() =~= done);
        }
        if b > 0 && b < 4 {
            out[j - 1] = b ^ 4;
            out[j - 2] = 2;
            j -= 2;
        } else {
            out[j - 1] = b;
            j -= 1;
        }
        proof {
            assert(out@.subrange(j as int, total as int) =~= escape_byte(b) + before.subrange(
                j + escape_byte(b).len(),
                total as int,
            ));
            assert(out@.subrange(0, i as int) =~= before.subrange(0, i + 1).subrange(0, i as int));
            assert(src.subrange(0, i as int) =~= src.subrange(0, i + 1).subrange(0, i as int));
            assert(out@.subrange(total as int, out@.len() as int) =~= before.subrange(
                total as int,
                out@.len() as int,
            ));
        }
    }
    proof {
        assert(src.subrange(0, 0) =~= Seq::<u8>::empty());
        assert(src.subrange(0, current_bytes_wrote as int) =~= src);
        assert(out@ =~= splice(old(out)@, 0, escape(src)));
    }
    total
}

/// Writes `n` zero bytes into `out`, from index `at` on.
pub(crate) fn fill_zeros(out: &mut [u8], at: usize, n: usize)
    requires
        at + n <= old(out).len(),
    ensures
        final(out)@ == splice(old(out)@, at as int, zeros(n as nat)),
{
    let mut k: usize = 0;
    while k < n
        invariant
            k <= n,
            at + n <= out.len(),
            out@.len() == old(out)@.len(),
            forall|i: int|
                0 <= i < out@.len() ==> out@[i] == (if at <= i < at + k {
                    0u8
                } else {
                    old(out)@[i]
                }),
        decreases n - k,
    {
        out[at + k] = 0;
        k += 1;
    }
    assert(out@ =~= splice(old(out)@, at as int, zeros(n as nat)));
}

/// Copies `n` bytes of `src`, from index `from` on, into `out`, from index
/// `at` on.
pub(crate) fn copy_bytes(out: &mut [u8], at: usize, src: &[u8], from: usize, n: usize)
    requires
        at + n <= old(out).len(),
        from + n <= src.len(),
    ensures
        final(out)@ == splice(old(out)@, at as int, src@.subrange(from as int, from + n)),
{
    let mut k: usize = 0;
    while k < n
        invariant
            k <= n,
            at + n <= out.len(),
            from + n <= src.len(),
            out@.len() == old(out)@.len(),
            forall|i: int|
                0 <= i < out@.len() ==> out@[i] == (if at <= i < at + k {
                    src@[from + (i - at)]
                } else {
                    old(out)@[i]
                }),
        decreases n - k,
    {
        out[at + k] = src[from + k];
        k += 1;
    }
    assert(out@ =~= splice(old(out)@, at as int, src@.subrange(from as int, from + n)));
}

/// Appends the escaped form of one byte to `out`.
pub fn escpae_bytes(out: &mut Vec<u8>, data: u8)
    ensures
        final(out)@ == old(out)@ + escape_byte(data),
{
    if data > 0 && data < 4 {
        out.push(0x02);
        out.push(data ^ 0x4);
    } else {
        out.push(data);
    }
    assert(out@ =~= old(out)@ + escape_byte(data));
}

/// Computes the checksum of `data`.
pub fn calculate_checksum(data: &[u8]) -> (sum: u8)
    ensures
        sum == checksum(data@),
{
    let mut sum: u8 = 0;
    let mut i: usize = 0;
    while i < data.len()
        invariant
            i <= data.len(),
            sum == checksum(data@.subrange(0, i as int)),
        decreases data.len() - i,
    {
        assert(data@.subrange(0, i + 1).drop_last() =~= data@.subrange(0, i as int));
        sum = sum ^ data[i];
        i += 1;
    }
    assert(data@.subrange(0, data.len() as int) =~= data@);
    sum
}

} // verus!
