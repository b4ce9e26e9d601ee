//! The layout of DNS data on the wire: integers in network byte order and
//! domain names as sequences of length-prefixed labels.

use vstd::prelude::*;
use vstd::utf8::{decode_utf8, encode_utf8, encode_utf8_decode_utf8};

verus! {

/// The two bytes of a 16-bit value, most significant first.
pub open spec fn u16_bytes(v: u16) -> Seq<u8> {
    seq![(v / 256) as u8, (v % 256) as u8]
}

/// The four bytes of a 32-bit value, most significant first.
pub open spec fn u32_bytes(v: u32) -> Seq<u8> {
    seq![
        (v / 0x100_0000) as u8,
        ((v / 0x1_0000) % 256) as u8,
        ((v / 256) % 256) as u8,
        (v % 256) as u8,
    ]
}

/// The 16-bit value of two bytes, most significant first.
pub open spec fn be_u16(hi: u8, lo: u8) -> u16 {
    (hi * 256 + lo) as u16
}

/// The 32-bit value of four bytes, most significant first.
pub open spec fn be_u32(b0: u8, b1: u8, b2: u8, b3: u8) -> u32 {
    (b0 * 0x100_0000 + b1 * 0x1_0000 + b2 * 256 + b3) as u32
}

/// A length written in a 16-bit field: the length modulo 2^16.
pub open spec fn count16(n: nat) -> u16 {
    (n % 0x1_0000) as u16
}

/// The wire form of a domain name: each label preceded by its length (in
/// one byte, so modulo 256), then the zero length of the root.
pub open spec fn labels_bytes(labels: Seq<Seq<u8>>) -> Seq<u8>
    decreases labels.len(),
{
    if labels.len() == 0 {
        seq![0u8]
    } else {
        seq![(labels[0].len() % 256) as u8] + labels[0] + labels_bytes(labels.drop_first())
    }
}

/// Appends a 16-bit value in network byte order.
pub fn push_u16(out: &mut Vec<u8>, v: u16)
    ensures
        final(out)@ == old(out)@ + u16_bytes(v),
{
    out.push((v / 256) as u8);
    out.push((v % 256) as u8);
    assert(final(out)@ =~= old(out)@ + u16_bytes(v));
}

/// Appends a 32-bit value in network byte order.
pub fn push_u32(out: &mut Vec<u8>, v: u32)
    ensures
        final(out)@ == old(out)@ + u32_bytes(v),
{
    out.push((v / 0x100_0000) as u8);
    out.push(((v / 0x1_0000) % 256) as u8);
    out.push(((v / 256) % 256) as u8);
    out.push((v % 256) as u8);
    assert(final(out)@ =~= old(out)@ + u32_bytes(v));
}

/// Appends a sequence of bytes.
pub fn push_bytes(out: &mut Vec<u8>, bytes: &[u8])
    ensures
        final(out)@ == old(out)@ + bytes@,
{
    let ghost start = out@;
    let mut i: usize = 0;
    while i < bytes.len()
        invariant
            0 <= i <= bytes@.len(),
            out@ == start + bytes@.subrange(0, i as int),
        decreases bytes@.len() - i,
    {
        out.push(bytes[i]);
        i = i + 1;
        assert(out@ =~= start + bytes@.subrange(0, i as int));
    }
    assert(bytes@.subrange(0, i as int) =~= bytes@);
}

/// Moves a label sequence forward by one label.
pub proof fn lemma_labels_bytes_step(labels: Seq<Seq<u8>>, i: int)
    requires
        0 <= i < labels.len(),
    ensures
        labels_bytes(labels.skip(i)) == seq![(labels[i].len() % 256) as u8] + labels[i]
            + labels_bytes(labels.skip(i + 1)),
{
    assert(labels.skip(i).drop_first() =~= labels.skip(i + 1));
}


/// The parts joined in order, with `sep` between each two of them.
pub open spec fn join(parts: Seq<Seq<char>>, sep: Seq<char>) -> Seq<char>
    decreases parts.len(),
{
    if parts.len() == 0 {
        seq![]
    } else if parts.len() == 1 {
        parts[0]
    } else {
        join(parts.drop_last(), sep) + sep + parts.last()
    }
}

/// The characters of each string.
pub open spec fn chars_of(strings: Seq<String>) -> Seq<Seq<char>> {
    strings.map_values(|s: String| s@)
}

/// Joins the strings in order, with `sep` between each two of them.
pub fn join_strings(parts: &Vec<String>, sep: &str) -> (res: String)
    ensures
        res@ == join(chars_of(parts@), sep@),
{
    let ghost all = chars_of(parts@);
    let mut res = String::new();
    let mut i: usize = 0;
    while i < parts.len()
        invariant
            0 <= i <= parts@.len(),
            all == chars_of(parts@),
            res@ == join(all.take(i as int), sep@),
        decreases parts@.len() - i,
    {
        assert(all.take(i + 1).drop_last() =~= all.take(i as int));
        if i != 0 {
            res.append(sep);
        }
        res.append(parts[i].as_str());
        i = i + 1;
        assert(res@ =~= join(all.take(i as int), sep@));
    }
    assert(all.take(i as int) =~= all);
    res
}


/// The byte of the dot that separates the labels of a written name.
pub open spec fn is_dot(b: u8) -> bool {
    b == 0x2e
}

/// The pieces of `b` between its dots, in order: one more piece than there
/// are dots, each of them possibly empty.
pub open spec fn dot_split(b: Seq<u8>) -> Seq<Seq<u8>>
    decreases b.len(),
{
    if b.len() == 0 {
        seq![Seq::<u8>::empty()]
    } else {
        let rest = dot_split(b.drop_first());
        if is_dot(b[0]) {
            seq![Seq::<u8>::empty()] + rest
        } else {
            rest.update(0, seq![b[0]] + rest[0])
        }
    }
}

/// The pieces of `parts` written with a dot between each two of them.
pub open spec fn dot_join(parts: Seq<Seq<u8>>) -> Seq<u8>
    decreases parts.len(),
{
    if parts.len() == 0 {
        seq![]
    } else if parts.len() == 1 {
        parts[0]
    } else {
        parts[0] + seq![0x2eu8] + dot_join(parts.drop_first())
    }
}

/// Splitting gives at least one piece.
pub proof fn lemma_dot_split_len(b: Seq<u8>)
    ensures
        dot_split(b).len() >= 1,
    decreases b.len(),
{
    if b.len() > 0 {
        lemma_dot_split_len(b.drop_first());
    }
}

/// Splitting at the first dot: the piece before it, then the pieces of
/// what follows it.
pub proof fn lemma_dot_split_first(b: Seq<u8>, k: int)
    requires
        0 <= k < b.len(),
        is_dot(b[k]),
        forall|i: int| 0 <= i < k ==> !is_dot(#[trigger] b[i]),
    ensures
        dot_split(b) == seq![b.take(k)] + dot_split(b.skip(k + 1)),
    decreases k,
{
    if k == 0 {
        assert(b.drop_first() =~= b.skip(1));
        assert(b.take(0) =~= Seq::<u8>::empty());
    } else {
        let t = b.drop_first();
        assert forall|i: int| 0 <= i < k - 1 implies !is_dot(#[trigger] t[i]) by {
            assert(t[i] == b[i + 1]);
        }
        lemma_dot_split_first(t, k - 1);
        assert(t.skip(k) =~= b.skip(k + 1));
        assert(seq![b[0]] + t.take(k - 1) =~= b.take(k));
        assert(dot_split(b) =~= seq![b.take(k)] + dot_split(b.skip(k + 1)));
    }
}

/// Without a dot, there is a single piece: the whole sequence.
pub proof fn lemma_dot_split_none(b: Seq<u8>)
    requires
        forall|i: int| 0 <= i < b.len() ==> !is_dot(#[trigger] b[i]),
    ensures
        dot_split(b) == seq![b],
    decreases b.len(),
{
    if b.len() == 0 {
        assert(b =~= Seq::<u8>::empty());
    } else {
        let t = b.drop_first();
        assert forall|i: int| 0 <= i < t.len() implies !is_dot(#[trigger] t[i]) by {
            assert(t[i] == b[i + 1]);
        }
        lemma_dot_split_none(t);
        assert(seq![b[0]] + t =~= b);
        assert(dot_split(b) =~= seq![b]);
    }
}

/// Joining the pieces of a split gives back what was split.
pub proof fn lemma_dot_join_split(b: Seq<u8>)
    ensures
        dot_join(dot_split(b)) == b,
    decreases b.len(),
{
    if b.len() == 0 {
    } else {
        let t = b.drop_first();
        let rest = dot_split(t);
        lemma_dot_join_split(t);
        lemma_dot_split_len(t);
        if is_dot(b[0]) {
            let parts = seq![Seq::<u8>::empty()] + rest;
            assert(parts.drop_first() =~= rest);
            assert(parts[0] =~= Seq::<u8>::empty());
            assert(dot_join(parts) =~= seq![0x2eu8] + dot_join(rest));
            assert(seq![0x2eu8] + t =~= b);
        } else {
            let parts = rest.update(0, seq![b[0]] + rest[0]);
            if rest.len() == 1 {
                assert(dot_join(rest) == rest[0]);
                assert(seq![b[0]] + t =~= b);
            } else {
                assert(parts.drop_first() =~= rest.drop_first());
                assert(dot_join(rest) == rest[0] + seq![0x2eu8] + dot_join(rest.drop_first()));
                assert(dot_join(parts) =~= seq![b[0]] + dot_join(rest));
                assert(seq![b[0]] + t =~= b);
            }
        }
    }
}


/// Joining with dots, taken from the end: the last piece after a dot.
pub proof fn lemma_dot_join_last(parts: Seq<Seq<u8>>)
    requires
        parts.len() >= 2,
    ensures
        dot_join(parts) == dot_join(parts.drop_last()) + seq![0x2eu8] + parts.last(),
    decreases parts.len(),
{
    let rest = parts.drop_first();
    let init = parts.drop_last();
    if parts.len() == 2 {
        assert(dot_join(rest) == rest[0]);
        assert(dot_join(init) == init[0]);
        assert(dot_join(parts) =~= dot_join(init) + seq![0x2eu8] + parts.last());
    } else {
        lemma_dot_join_last(rest);
        assert(rest.drop_last() =~= init.drop_first());
        assert(dot_join(init) == init[0] + seq![0x2eu8] + dot_join(init.drop_first()));
        assert(dot_join(parts) =~= dot_join(init) + seq![0x2eu8] + parts.last());
    }
}

/// The UTF-8 of two texts one after the other is the UTF-8 of the first,
/// then that of the second.
pub proof fn lemma_encode_utf8_concat(a: Seq<char>, b: Seq<char>)
    ensures
        encode_utf8(a + b) == encode_utf8(a) + encode_utf8(b),
    decreases a.len(),
{
    if a.len() == 0 {
        assert(a + b =~= b);
    } else {
        lemma_encode_utf8_concat(a.drop_first(), b);
        assert((a + b).drop_first() =~= a.drop_first() + b);
        assert(encode_utf8(a + b) =~= encode_utf8(a) + encode_utf8(b));
    }
}

/// The UTF-8 of texts joined by dots is their UTF-8 joined by dot bytes.
pub proof fn lemma_encode_join_dots(parts: Seq<Seq<char>>)
    ensures
        encode_utf8(join(parts, seq!['.'])) == dot_join(
            parts.map_values(|p: Seq<char>| encode_utf8(p)),
        ),
    decreases parts.len(),
{
    let enc = parts.map_values(|p: Seq<char>| encode_utf8(p));
    if parts.len() == 0 {
    } else if parts.len() == 1 {
    } else {
        let init = parts.drop_last();
        lemma_encode_join_dots(init);
        assert(init.map_values(|p: Seq<char>| encode_utf8(p)) =~= enc.drop_last());
        lemma_dot_join_last(enc);
        lemma_encode_utf8_concat(join(init, seq!['.']) + seq!['.'], parts.last());
        lemma_encode_utf8_concat(join(init, seq!['.']), seq!['.']);
        assert(encode_utf8(seq!['.']) == seq![0x2eu8]) by {
            let c: u32 = '.' as u32;
            assert(c == 0x2e);
            assert((c & 0x7F) as u8 == 0x2eu8) by (bit_vector)
                requires
                    c == 0x2e,
            ;
            assert(seq!['.'].drop_first() =~= Seq::<char>::empty());
            assert(encode_utf8(Seq::<char>::empty()) =~= Seq::<u8>::empty());
            assert(encode_utf8(seq!['.']) =~= seq![0x2eu8]);
        }
    }
}

/// Texts whose UTF-8 forms are the pieces of the UTF-8 of `whole`, split at
/// its dots, join with dots into `whole` again.
pub proof fn lemma_join_dot_pieces(parts: Seq<Seq<char>>, whole: Seq<char>)
    requires
        parts.map_values(|p: Seq<char>| encode_utf8(p)) == dot_split(encode_utf8(whole)),
    ensures
        join(parts, seq!['.']) == whole,
{
    lemma_encode_join_dots(parts);
    lemma_dot_join_split(encode_utf8(whole));
    encode_utf8_decode_utf8(join(parts, seq!['.']));
    encode_utf8_decode_utf8(whole);
}

} // verus!
