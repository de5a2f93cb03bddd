//! The key column of a Twitter cache trace, read as it stands in the file.

use vstd::prelude::*;
use vstd::slice::*;
use vstd::utf8::*;

use crate::text::strings;
use crate::workload::file::{
    bare, bare_len, complete, fed, lemma_line_end, line_end, loaded, text_hash,
    twitter_csv_key_string, twitter_key_in, utf8_text, Format, LineError,
};

verus! {

/// The key column of a line of the file.
pub open spec fn text_in_raw(raw: Seq<u8>) -> Result<Seq<char>, LineError> {
    if valid_utf8(bare(raw)) {
        twitter_key_in(decode_utf8(bare(raw)))
    } else {
        Err(LineError::NotText)
    }
}

/// What a trace of `texts` becomes by the rest of a file: one line after the other, until
/// the trace is complete, the file ends, or a line cannot be read.
pub open spec fn texts_loaded(
    limit: Option<usize>,
    bytes: Seq<u8>,
    i: int,
    texts: Seq<Seq<char>>,
) -> Result<Seq<Seq<char>>, LineError>
    decreases bytes.len() - i,
{
    let j = line_end(bytes, i);
    if i < 0 || i >= bytes.len() || j <= i || j > bytes.len() || complete(texts.len(), limit) {
        Ok(texts)
    } else {
        match text_in_raw(bytes.subrange(i, j)) {
            Ok(t) => texts_loaded(limit, bytes, j, texts.push(t)),
            Err(e) => Err(e),
        }
    }
}

/// A trace of texts while its file is read line by line.
pub struct TextReader {
    pub limit: Option<usize>,
    pub texts: Vec<String>,
}

impl TextReader {
    /// A reader that stops at `limit` texts, where there is a limit.
    pub fn new(limit: Option<usize>) -> (r: Self)
        ensures
            r.limit == limit,
            r.texts@ == Seq::<String>::empty(),
    {
        TextReader { limit, texts: Vec::new() }
    }

    /// Whether further lines add texts.
    pub fn wants_more(&self) -> (r: bool)
        ensures
            r == !complete(self.texts@.len(), self.limit),
    {
        match self.limit {
            Some(n) => self.texts.len() < n,
            None => true,
        }
    }

    /// Adds the key column of one line, given with its line end. On an error the trace stays
    /// as it was.
    pub fn feed(&mut self, raw: &[u8]) -> (r: Result<(), LineError>)
        ensures
            final(self).limit == old(self).limit,
            match r {
                Ok(_) => {
                    &&& text_in_raw(raw@) is Ok
                    &&& strings(final(self).texts@) == strings(old(self).texts@).push(
                        text_in_raw(raw@)->Ok_0,
                    )
                },
                Err(e) => {
                    &&& text_in_raw(raw@) == Err::<Seq<char>, LineError>(e)
                    &&& final(self).texts@ == old(self).texts@
                },
            },
    {
        let n = bare_len(raw);
        let line = match utf8_text(slice_subrange(raw, 0, n)) {
            Some(t) => t,
            None => {
                return Err(LineError::NotText);
            },
        };
        match twitter_csv_key_string(line) {
            Ok(t) => {
                self.texts.push(t);
                assert(strings(self.texts@) =~= strings(old(self).texts@).push(t@));
                Ok(())
            },
            Err(e) => Err(e),
        }
    }
}

/// The key column of a Twitter trace with the content `bytes`: its texts in order, the first
/// `limit` of them where there is a limit. Lines behind the last text that is needed are not
/// looked at.
pub fn load_texts(limit: Option<usize>, bytes: &[u8]) -> (r: Result<Vec<String>, LineError>)
    ensures
        match r {
            Ok(texts) => texts_loaded(limit, bytes@, 0, Seq::empty()) == Ok::<
                Seq<Seq<char>>,
                LineError,
            >(strings(texts@)),
            Err(e) => texts_loaded(limit, bytes@, 0, Seq::empty()) == Err::<
                Seq<Seq<char>>,
                LineError,
            >(e),
        },
{
    let mut reader = TextReader::new(limit);
    let mut i: usize = 0;
    assert(strings(reader.texts@) =~= Seq::empty());
    while i < bytes.len() && reader.wants_more()
        invariant
            i <= bytes@.len(),
            reader.limit == limit,
            texts_loaded(limit, bytes@, i as int, strings(reader.texts@)) == texts_loaded(
                limit,
                bytes@,
                0,
                Seq::empty(),
            ),
        decreases bytes@.len() - i,
    {
        proof {
            lemma_line_end(bytes@, i as int);
        }
        let mut j: usize = i;
        while j < bytes.len() && bytes[j] != 0x0a
            invariant
                i <= j <= bytes@.len(),
                line_end(bytes@, j as int) == line_end(bytes@, i as int),
            decreases bytes@.len() - j,
        {
            j += 1;
        }
        if j < bytes.len() {
            j += 1;
        }
        assert(j == line_end(bytes@, i as int));
        match reader.feed(slice_subrange(bytes, i, j)) {
            Ok(_) => {},
            Err(e) => {
                return Err(e);
            },
        }
        i = j;
    }
    Ok(reader.texts)
}

/// The hash of each text.
pub open spec fn hashes(texts: Seq<Seq<char>>) -> Seq<u64> {
    texts.map_values(|t: Seq<char>| text_hash(t))
}

/// The keys of a Twitter trace are the hashes of its key column: where the column can be
/// read as text the keys can be read too, and where it cannot, both readings meet the same
/// error.
pub proof fn law_keys_are_hashes_of_texts(limit: Option<usize>, bytes: Seq<u8>)
    ensures
        loaded(Format::TwitterCsv, limit, bytes, 0, Seq::empty()) == (match texts_loaded(
            limit,
            bytes,
            0,
            Seq::empty(),
        ) {
            Ok(texts) => Ok(hashes(texts)),
            Err(e) => Err(e),
        }),
{
    assert(hashes(Seq::empty()) =~= Seq::empty());
    lemma_hashed(limit, bytes, 0, Seq::empty());
}

proof fn lemma_hashed(limit: Option<usize>, bytes: Seq<u8>, i: int, texts: Seq<Seq<char>>)
    requires
        0 <= i,
    ensures
        loaded(Format::TwitterCsv, limit, bytes, i, hashes(texts)) == (match texts_loaded(
            limit,
            bytes,
            i,
            texts,
        ) {
            Ok(all) => Ok(hashes(all)),
            Err(e) => Err(e),
        }),
    decreases bytes.len() - i,
{
    if i < bytes.len() && !complete(texts.len(), limit) {
        let j = line_end(bytes, i);
        lemma_line_end(bytes, i);
        let raw = bytes.subrange(i, j);
        if let Ok(t) = text_in_raw(raw) {
            let more = texts.push(t);
            assert(hashes(texts) + seq![text_hash(t)] =~= hashes(more));
            assert(fed(Format::TwitterCsv, limit, hashes(texts), raw) == Ok::<Seq<u64>, LineError>(
                hashes(more),
            ));
            lemma_hashed(limit, bytes, j, more);
        }
    }
}

} // verus!
