//! Byte strings: literals, in-place writing and lexicographic order.

use vstd::prelude::*;

verus! {

/// The bytes of a text whose characters are all ASCII.
pub open spec fn ascii(text: Seq<char>) -> Seq<u8> {
    text.map_values(|c: char| c as u8)
}

/// `buf` with its first bytes replaced by `message`.
pub open spec fn overwrite(buf: Seq<u8>, message: Seq<u8>) -> Seq<u8> {
    message + buf.skip(message.len() as int)
}

/// The bytes of an ASCII literal.
pub(crate) fn literal(text: &'static str) -> (bytes: &'static [u8])
    requires
        text.is_ascii(),
    ensures
        bytes@ == ascii(text@),
{
    proof {
        vstd::string::is_ascii_spec_bytes(text);
    }
    let bytes = text.as_bytes();
    assert(bytes@ =~= ascii(text@));
    bytes
}

/// Writes `src` at `offset` and returns the offset just behind it.
///
/// The contract speaks of what has been written so far, the bytes before the
/// offset, and of what has not been touched yet, the bytes behind it.
pub(crate) fn write_at(buf: &mut [u8], offset: usize, src: &[u8]) -> (end: usize)
    requires
        offset + src@.len() <= old(buf)@.len(),
    ensures
        end == offset + src@.len(),
        final(buf)@.len() == old(buf)@.len(),
        final(buf)@.take(end as int) == old(buf)@.take(offset as int) + src@,
        forall|k: int| end <= k < old(buf)@.len() ==> final(buf)@[k] == old(buf)@[k],
{
    let room: usize = buf.len();
    let mut i: usize = 0;
    while i < src.len()
        invariant
            i <= src@.len(),
            offset + src@.len() <= room,
            room == buf@.len(),
            room == old(buf)@.len(),
            forall|k: int| 0 <= k < offset ==> buf@[k] == old(buf)@[k],
            forall|k: int| offset <= k < offset + i ==> buf@[k] == src@[k - offset],
            forall|k: int| offset + i <= k < buf@.len() ==> buf@[k] == old(buf)@[k],
        decreases src@.len() - i,
    {
        buf[offset + i] = src[i];
        i += 1;
    }
    let end: usize = offset + src.len();
    assert(buf@.take(end as int) =~= old(buf)@.take(offset as int) + src@);
    end
}

/// Appends `src` to `out`.
pub(crate) fn append(out: &mut Vec<u8>, src: &[u8])
    ensures
        final(out)@ == old(out)@ + src@,
{
    out.extend_from_slice(src);
    assert(out@ =~= old(out)@ + src@);
}

/// Whether two byte strings are the same.
pub(crate) fn same_bytes(a: &[u8], b: &[u8]) -> (same: bool)
    ensures
        same == (a@ == b@),
{
    if a.len() != b.len() {
        return false;
    }
    let mut i: usize = 0;
    while i < a.len()
        invariant
            i <= a@.len(),
            a@.len() == b@.len(),
            forall|k: int| 0 <= k < i ==> a@[k] == b@[k],
        decreases a@.len() - i,
    {
        if a[i] != b[i] {
            return false;
        }
        i += 1;
    }
    assert(a@ =~= b@);
    true
}

/// Whether two texts are the same.
pub(crate) fn same_text(a: &str, b: &str) -> (same: bool)
    ensures
        same == (a@ == b@),
{
    proof {
        vstd::utf8::encode_utf8_decode_utf8(a@);
        vstd::utf8::encode_utf8_decode_utf8(b@);
    }
    same_bytes(a.as_bytes(), b.as_bytes())
}

/// Lexicographic order on byte strings; a proper prefix comes first.
pub open spec fn bytes_le(a: Seq<u8>, b: Seq<u8>) -> bool
    decreases a.len(),
{
    if a.len() == 0 {
        true
    } else if b.len() == 0 {
        false
    } else if a[0] != b[0] {
        a[0] < b[0]
    } else {
        bytes_le(a.drop_first(), b.drop_first())
    }
}

/// Whether `a` comes strictly after `b` in lexicographic order.
pub(crate) fn is_after(a: &[u8], b: &[u8]) -> (after: bool)
    ensures
        after == !bytes_le(a@, b@),
{
    let mut i: usize = 0;
    assert(a@.skip(0) =~= a@ && b@.skip(0) =~= b@);
    while i < a.len()
        invariant
            i <= a@.len(),
            i <= b@.len(),
            bytes_le(a@, b@) == bytes_le(a@.skip(i as int), b@.skip(i as int)),
        decreases a@.len() - i,
    {
        if i >= b.len() {
            return true;
        }
        if a[i] != b[i] {
            return a[i] > b[i];
        }
        assert(a@.skip(i as int).drop_first() =~= a@.skip(i + 1));
        assert(b@.skip(i as int).drop_first() =~= b@.skip(i + 1));
        i += 1;
    }
    false
}

/// The lexicographic order is total: of two byte strings one comes first, and
/// only equal ones come both before and after each other.
pub(crate) proof fn lemma_bytes_le_total(a: Seq<u8>, b: Seq<u8>)
    ensures
        bytes_le(a, b) || bytes_le(b, a),
        bytes_le(a, b) && bytes_le(b, a) ==> a == b,
    decreases a.len(),
{
    if a.len() > 0 && b.len() > 0 && a[0] == b[0] {
        lemma_bytes_le_total(a.drop_first(), b.drop_first());
        if bytes_le(a, b) && bytes_le(b, a) {
            assert(a =~= seq![a[0]] + a.drop_first());
            assert(b =~= seq![b[0]] + b.drop_first());
        }
    } else if a.len() == 0 && b.len() == 0 {
        assert(a =~= b);
    }
}

/// The lexicographic order is transitive.
pub(crate) proof fn lemma_bytes_le_transitive(a: Seq<u8>, b: Seq<u8>, c: Seq<u8>)
    requires
        bytes_le(a, b),
        bytes_le(b, c),
    ensures
        bytes_le(a, c),
    decreases a.len(),
{
    if a.len() > 0 && b.len() > 0 && c.len() > 0 && a[0] == b[0] && b[0] == c[0] {
        lemma_bytes_le_transitive(a.drop_first(), b.drop_first(), c.drop_first());
    }
}

/// A text of ASCII characters has one byte for each of them: its code.
pub proof fn law_ascii_keeps_characters(text: Seq<char>)
    ensures
        ascii(text).len() == text.len(),
        forall|i: int| 0 <= i < text.len() ==> #[trigger] ascii(text)[i] == text[i] as u8,
{
}

/// Overwriting keeps the length of a buffer: the message stands at its front,
/// and no byte behind the message is changed.
pub proof fn law_overwrite_writes_the_front(buf: Seq<u8>, message: Seq<u8>)
    requires
        message.len() <= buf.len(),
    ensures
        overwrite(buf, message).len() == buf.len(),
        forall|i: int| 0 <= i < message.len() ==> #[trigger] overwrite(buf, message)[i] == message[i],
        forall|i: int|
            message.len() <= i < buf.len() ==> #[trigger] overwrite(buf, message)[i] == buf[i],
{
}

/// Byte strings are ordered by the first byte in which they differ, as a
/// number: the smaller byte comes first, and not the other way round.
pub proof fn law_first_difference_decides(a: Seq<u8>, b: Seq<u8>, k: int)
    requires
        0 <= k < a.len(),
        k < b.len(),
        forall|i: int| 0 <= i < k ==> a[i] == b[i],
        (a[k] as int) < (b[k] as int),
    ensures
        bytes_le(a, b),
        !bytes_le(b, a),
    decreases k,
{
    if k > 0 {
        assert(a[0] == b[0]);
        law_first_difference_decides(a.drop_first(), b.drop_first(), k - 1);
    }
}

/// Of two byte strings of which one is the start of the other, the shorter one
/// comes first; only equal ones come both ways.
pub proof fn law_prefix_comes_first(a: Seq<u8>, b: Seq<u8>)
    requires
        a.len() <= b.len(),
        forall|i: int| 0 <= i < a.len() ==> a[i] == b[i],
    ensures
        bytes_le(a, b),
        bytes_le(b, a) <==> a.len() == b.len(),
    decreases a.len(),
{
    if a.len() > 0 {
        assert(a[0] == b[0]);
        law_prefix_comes_first(a.drop_first(), b.drop_first());
    }
}

} // verus!
