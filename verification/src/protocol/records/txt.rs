//! The data of a TXT record (RFC 1035, 3.3.14): character strings, each
//! preceded by its length in one byte.

use vstd::prelude::*;
use vstd::utf8::{decode_utf8, encode_utf8, encode_utf8_decode_utf8, encode_utf8_valid_utf8, valid_utf8};

use crate::protocol::format::{chars_of, join, join_strings, push_bytes};
use crate::protocol::NAME_LEN_MAX;
use crate::sys::{string_from_utf8_lossy, utf8_lossy};
use crate::{ParseError, TextError};

verus! {

/// The text of a TXT record, as a list of entries.
pub struct TXT {
    entries: Vec<String>,
}

impl View for TXT {
    type V = Seq<Seq<char>>;

    /// The characters of each entry.
    closed spec fn view(&self) -> Seq<Seq<char>> {
        chars_of(self.entries@)
    }
}

/// The character strings that data holds, one after the other, each after
/// its length byte; `None` when the last one is cut short.
pub open spec fn txt_chunks(b: Seq<u8>) -> Option<Seq<Seq<u8>>>
    decreases b.len(),
{
    if b.len() == 0 {
        Some(seq![])
    } else if b.len() < b[0] + 1 {
        None
    } else {
        match txt_chunks(b.skip(b[0] + 1)) {
            Some(rest) => Some(seq![b.subrange(1, b[0] + 1)] + rest),
            None => None,
        }
    }
}

/// The wire form of character strings: each after its length byte.
pub open spec fn txt_wire(chunks: Seq<Seq<u8>>) -> Seq<u8>
    decreases chunks.len(),
{
    if chunks.len() == 0 {
        seq![]
    } else {
        seq![chunks[0].len() as u8] + chunks[0] + txt_wire(chunks.drop_first())
    }
}

/// The UTF-8 bytes of each text.
pub open spec fn utf8_of(texts: Seq<Seq<char>>) -> Seq<Seq<u8>> {
    texts.map_values(|t: Seq<char>| encode_utf8(t))
}

/// Whether each text fits a character string: less than 256 bytes.
pub open spec fn fits_strings(texts: Seq<Seq<char>>) -> bool {
    forall|i: int| 0 <= i < texts.len() ==> #[trigger] encode_utf8(texts[i]).len() < 256
}

impl TXT {
    /// A text of a single entry; fails if the entry is longer than 254
    /// bytes.
    pub fn with_single(entry: &str) -> (res: Result<Self, TextError>)
        ensures
            encode_utf8(entry@).len() > NAME_LEN_MAX - 1 ==> (res matches Err(
                TextError::InvalidNameSize { text },
            ) && text@ == entry@),
            encode_utf8(entry@).len() <= NAME_LEN_MAX - 1 ==> (res matches Ok(t) && t@ == seq![
                entry@,
            ]),
    {
        if entry.as_bytes().len() > NAME_LEN_MAX - 1 {
            return Err(TextError::InvalidNameSize { text: entry.to_owned() });
        }
        let mut entries = Vec::new();
        entries.push(entry.to_owned());
        let res = Self { entries };
        assert(res@ =~= seq![entry@]);
        Ok(res)
    }

    /// A text of the given entries; fails, with the first entry that is
    /// too long, if one is longer than 254 bytes.
    pub fn with_multiple(entries: Vec<String>) -> (res: Result<Self, TextError>)
        ensures
            (forall|i: int|
                0 <= i < entries@.len() ==> #[trigger] encode_utf8(entries@[i]@).len()
                    <= NAME_LEN_MAX - 1) ==> (res matches Ok(t) && t@ == chars_of(entries@)),
            (exists|i: int|
                0 <= i < entries@.len() && #[trigger] encode_utf8(entries@[i]@).len()
                    > NAME_LEN_MAX - 1) ==> (res matches Err(TextError::InvalidNameSize { text })
                && exists|i: int|
                0 <= i < entries@.len() && encode_utf8(entries@[i]@).len() > NAME_LEN_MAX - 1
                    && (forall|j: int|
                    0 <= j < i ==> #[trigger] encode_utf8(entries@[j]@).len() <= NAME_LEN_MAX - 1)
                    && text@ == #[trigger] entries@[i]@),
    {
        let mut i: usize = 0;
        while i < entries.len()
            invariant
                0 <= i <= entries@.len(),
                forall|j: int|
                    0 <= j < i ==> #[trigger] encode_utf8(entries@[j]@).len() <= NAME_LEN_MAX - 1,
            decreases entries@.len() - i,
        {
            if entries[i].as_str().as_bytes().len() > NAME_LEN_MAX - 1 {
                let text = entries[i].clone();
                assert(text@ == entries@[i as int]@);
                return Err(TextError::InvalidNameSize { text });
            }
            i = i + 1;
        }
        Ok(Self { entries })
    }

    /// Reads the character strings of TXT record data. Invalid UTF-8 is
    /// replaced as `String::from_utf8_lossy` does. Fails if the last string
    /// is cut short.
    pub fn parse(buffer: &[u8]) -> (res: Result<Self, ParseError>)
        ensures
            match txt_chunks(buffer@) {
                Some(chunks) => res matches Ok(t) && t@.len() == chunks.len() && (forall|i: int|
                    0 <= i < chunks.len() ==> #[trigger] t@[i] == utf8_lossy(chunks[i]) && (
                    valid_utf8(chunks[i]) ==> t@[i] == decode_utf8(chunks[i]))),
                None => res matches Err(ParseError::InvalidSliceSize),
            },
    {
        let ghost start = buffer@;
        let mut entries: Vec<String> = Vec::new();
        let mut rest: &[u8] = buffer;
        let ghost mut done: Seq<Seq<u8>> = seq![];
        while rest.len() > 0
            invariant
                start == buffer@,
                txt_chunks(start) == match txt_chunks(rest@) {
                    Some(tail) => Some(done + tail),
                    None => None::<Seq<Seq<u8>>>,
                },
                entries@.len() == done.len(),
                forall|i: int|
                    0 <= i < done.len() ==> #[trigger] entries@[i]@ == utf8_lossy(done[i]) && (
                    valid_utf8(done[i]) ==> entries@[i]@ == decode_utf8(done[i])),
            decreases rest@.len(),
        {
            let buff_len = rest.len();
            let len = rest[0] as usize;
            if buff_len < len + 1 {
                return Err(ParseError::InvalidSliceSize);
            }
            let chunk = &rest[1..1 + len];
            let entry = string_from_utf8_lossy(chunk);
            proof {
                assert(chunk@ =~= rest@.subrange(1, rest@[0] + 1));
                match txt_chunks(rest@.skip(len + 1)) {
                    Some(tail) => {
                        assert(done + (seq![chunk@] + tail) =~= done.push(chunk@) + tail);
                    },
                    None => {},
                }
                done = done.push(chunk@);
            }
            entries.push(entry);
            let ghost old_rest = rest@;
            rest = &rest[1 + len..rest.len()];
            assert(rest@ =~= old_rest.skip(len + 1));
        }
        proof {
            assert(done + Seq::<Seq<u8>>::empty() =~= done);
        }
        Ok(Self { entries })
    }

    /// The wire form of the text: each entry after its length byte. Each
    /// entry must be shorter than 256 bytes.
    pub fn serialize(&self) -> (res: Vec<u8>)
        requires
            fits_strings(self@),
        ensures
            res@ == txt_wire(utf8_of(self@)),
    {
        let ghost all = utf8_of(self@);
        let mut result = Vec::new();
        let mut i: usize = 0;
        assert(all.skip(0) =~= all);
        while i < self.entries.len()
            invariant
                0 <= i <= self.entries@.len(),
                all == utf8_of(self@),
                self@ == chars_of(self.entries@),
                fits_strings(self@),
                txt_wire(all) == result@ + txt_wire(all.skip(i as int)),
            decreases self.entries@.len() - i,
        {
            let bytes = self.entries[i].as_str().as_bytes();
            assert(bytes@ == all[i as int]);
            assert(encode_utf8(self@[i as int]).len() < 256);
            assert(all.skip(i as int).drop_first() =~= all.skip(i + 1));
            let ghost before = result@;
            result.push(bytes.len() as u8);
            push_bytes(&mut result, bytes);
            assert(result@ =~= before + seq![all[i as int].len() as u8] + all[i as int]);
            i = i + 1;
        }
        assert(all.skip(i as int) =~= Seq::<Seq<u8>>::empty());
        result
    }

    /// The entries, joined by line breaks.
    pub fn text(&self) -> (res: String)
        ensures
            res@ == join(self@, "\n"@),
    {
        join_strings(&self.entries, "\n")
    }
}


/// Character strings written out read back as the same strings.
pub proof fn lemma_txt_chunks_wire(chunks: Seq<Seq<u8>>)
    requires
        forall|i: int| 0 <= i < chunks.len() ==> #[trigger] chunks[i].len() < 256,
    ensures
        txt_chunks(txt_wire(chunks)) == Some(chunks),
    decreases chunks.len(),
{
    if chunks.len() == 0 {
        assert(chunks =~= Seq::<Seq<u8>>::empty());
    } else {
        let c = chunks[0];
        let rest = chunks.drop_first();
        let w = txt_wire(chunks);
        assert(w == seq![c.len() as u8] + c + txt_wire(rest));
        assert(w[0] == c.len());
        assert(w.skip(c.len() as int + 1) =~= txt_wire(rest));
        assert(w.subrange(1, c.len() as int + 1) =~= c);
        assert forall|i: int| 0 <= i < rest.len() implies #[trigger] rest[i].len() < 256 by {
            assert(rest[i] == chunks[i + 1]);
        }
        lemma_txt_chunks_wire(rest);
        assert(seq![c] + rest =~= chunks);
    }
}

/// A text whose entries each fit a character string, written out and read
/// back, gives the same entries: the strings read are the UTF-8 of the
/// entries, and they decode to the entries.
pub proof fn law_txt_roundtrip(texts: Seq<Seq<char>>)
    requires
        fits_strings(texts),
    ensures
        txt_chunks(txt_wire(utf8_of(texts))) == Some(utf8_of(texts)),
        forall|i: int|
            0 <= i < texts.len() ==> valid_utf8(#[trigger] utf8_of(texts)[i]) && decode_utf8(
                utf8_of(texts)[i],
            ) == texts[i],
{
    let chunks = utf8_of(texts);
    assert forall|i: int| 0 <= i < chunks.len() implies #[trigger] chunks[i].len() < 256 by {
        assert(chunks[i] == encode_utf8(texts[i]));
    }
    lemma_txt_chunks_wire(chunks);
    assert forall|i: int| 0 <= i < texts.len() implies valid_utf8(#[trigger] utf8_of(texts)[i])
        && decode_utf8(utf8_of(texts)[i]) == texts[i] by {
        encode_utf8_valid_utf8(texts[i]);
        encode_utf8_decode_utf8(texts[i]);
    }
}

/// Data that reads as character strings is those strings written out.
pub proof fn law_txt_wire_of_chunks(b: Seq<u8>)
    requires
        txt_chunks(b) is Some,
    ensures
        txt_wire(txt_chunks(b)->Some_0) == b,
    decreases b.len(),
{
    if b.len() == 0 {
        assert(b =~= Seq::<u8>::empty());
    } else {
        let n = b[0] as int;
        let tail = b.skip(n + 1);
        law_txt_wire_of_chunks(tail);
        let rest = txt_chunks(tail)->Some_0;
        let chunks = seq![b.subrange(1, n + 1)] + rest;
        assert(chunks.drop_first() =~= rest);
        assert(chunks[0].len() == n);
        assert(txt_wire(chunks) =~= seq![n as u8] + b.subrange(1, n + 1) + txt_wire(rest));
        assert(txt_wire(chunks) =~= b);
    }
}

} // verus!
