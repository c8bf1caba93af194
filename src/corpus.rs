use crate::index::{
    build_len_index, build_start_index, char_entries, char_map_get, is_len_index,
    is_start_index, lemma_of_len_member, lemma_starting_with_member, len_entries, len_map_get, of_len, starting_with, views,
};
use crate::text::{lines_of, split_lines};
use ahash::AHashMap;
use rand::Rng;
use std::io::Read;
use vstd::prelude::*;

verus! {

/// Why a word list could not be made into a corpus.
#[derive(Clone, Copy, Debug, PartialEq, Eq)]
pub enum CorpusError {
    /// The compressed data is not a valid brotli stream.
    Corrupt,
    /// The decompressed data is not UTF-8 text.
    NotUtf8,
    /// The list holds no word at all.
    Empty,
    /// The list holds an empty line, which has no first character.
    EmptyWord,
}

/// What is wrong with a word table, if anything: it must hold at least one
/// word, and no word may be empty.
pub open spec fn table_error(ws: Seq<Seq<char>>) -> Option<CorpusError> {
    if ws.len() == 0 {
        Some(CorpusError::Empty)
    } else if exists|j: int| 0 <= j < ws.len() && (#[trigger] ws[j]).len() == 0 {
        Some(CorpusError::EmptyWord)
    } else {
        None
    }
}

/// The bytes that a brotli stream decodes to; `None` when `b` is not a
/// valid stream.
pub uninterp spec fn brotli_decoded(b: Seq<u8>) -> Option<Seq<u8>>;

/// The characters that UTF-8 bytes encode; `None` when `b` is not UTF-8.
pub uninterp spec fn utf8_decoded(b: Seq<u8>) -> Option<Seq<char>>;

/// Relies on `brotli::Decompressor`, read to its end through a 4096-byte
/// buffer: the bytes that the stream `b` encodes, or `None` when it is not
/// a valid stream. The outcome depends on the bytes of `b` alone.
#[verifier::external_body]
fn decompress(b: &[u8]) -> (r: Option<Vec<u8>>)
    ensures
        r is Some <==> brotli_decoded(b@) is Some,
        r matches Some(v) ==> brotli_decoded(b@) == Some(v@),
{
    let mut out = Vec::new();
    match brotli::Decompressor::new(b, 4096).read_to_end(&mut out) {
        Ok(_) => Some(out),
        Err(_) => None,
    }
}

/// Relies on `String::from_utf8`: the text that `b` encodes, or `None` when
/// `b` is not UTF-8.
#[verifier::external_body]
fn utf8_text(b: Vec<u8>) -> (r: Option<String>)
    ensures
        r is Some <==> utf8_decoded(b@) is Some,
        r matches Some(s) ==> utf8_decoded(b@) == Some(s@),
{
    String::from_utf8(b).ok()
}

/// The word list of one language: its word table, one word per line of the
/// source text, and two indexes over it, by length in characters and by
/// first character. A corpus never changes once built.
pub struct Corpus {
    words: Vec<String>,
    by_len: AHashMap<usize, Vec<String>>,
    by_start: AHashMap<char, Vec<String>>,
}

impl Corpus {
    /// The word table, in the order of the source lines.
    pub closed spec fn words_view(&self) -> Seq<Seq<char>> {
        views(self.words@)
    }

    /// A corpus holds at least one word, no empty word, and both indexes
    /// match its word table.
    #[verifier::type_invariant]
    closed spec fn wf(&self) -> bool {
        &&& table_error(self.words_view()) is None
        &&& is_len_index(len_entries(self.by_len), self.words_view())
        &&& is_start_index(char_entries(self.by_start), self.words_view())
    }

    /// A corpus whose words are the lines of `text`. Fails when there is no
    /// line, or when a line is empty.
    pub fn from_text(text: &str) -> (r: Result<Corpus, CorpusError>)
        ensures
            r is Ok <==> table_error(lines_of(text@)) is None,
            r matches Ok(c) ==> c.words_view() == lines_of(text@),
            r matches Err(e) ==> table_error(lines_of(text@)) == Some(e),
    {
        let words = split_lines(text);
        proof {
            assert(views(words@) =~= lines_of(text@));
        }
        if words.len() == 0 {
            return Err(CorpusError::Empty);
        }
        let mut j: usize = 0;
        while j < words.len()
            invariant
                j <= words.len(),
                words.len() > 0,
                views(words@) == lines_of(text@),
                forall|k: int| 0 <= k < j ==> (#[trigger] words@[k])@.len() > 0,
            decreases words.len() - j,
        {
            if words[j].as_str().is_empty() {
                proof {
                    assert(views(words@)[j as int].len() == 0);
                    assert(lines_of(text@)[j as int].len() == 0);
                }
                return Err(CorpusError::EmptyWord);
            }
            j = j + 1;
        }
        proof {
            assert forall|k: int| 0 <= k < views(words@).len() implies (
            #[trigger] views(words@)[k]).len() > 0 by {
                assert(words@[k]@.len() > 0);
            }
        }
        let by_len = build_len_index(&words);
        let by_start = build_start_index(&words);
        Ok(Corpus { words, by_len, by_start })
    }

    /// A corpus from a brotli-compressed word list, one UTF-8 word per line.
    /// Fails with `Corrupt` when the stream does not decode, with `NotUtf8`
    /// when what it decodes to is not UTF-8, and otherwise as `from_text`
    /// does on the decoded text.
    pub fn from_compressed(bytes: &[u8]) -> (r: Result<Corpus, CorpusError>)
        ensures
            brotli_decoded(bytes@) is None ==> r == Err::<Corpus, CorpusError>(CorpusError::Corrupt),
            brotli_decoded(bytes@) matches Some(d) ==> (utf8_decoded(d) is None ==> r == Err::<Corpus, CorpusError>(CorpusError::NotUtf8)),
            brotli_decoded(bytes@) matches Some(d) ==> (utf8_decoded(d) matches Some(t) ==> (r is Ok <==> table_error(lines_of(t)) is None)),
            brotli_decoded(bytes@) matches Some(d) ==> (utf8_decoded(d) matches Some(t) ==> (r matches Ok(c) ==> c.words_view() == lines_of(t))),
            brotli_decoded(bytes@) matches Some(d) ==> (utf8_decoded(d) matches Some(t) ==> (r matches Err(e) ==> table_error(lines_of(t)) == Some(e))),
    {
        let raw = match decompress(bytes) {
            Some(v) => v,
            None => return Err(CorpusError::Corrupt),
        };
        let text = match utf8_text(raw) {
            Some(s) => s,
            None => return Err(CorpusError::NotUtf8),
        };
        Corpus::from_text(text.as_str())
    }
}

/// Relies on `rand::rng` and `Rng::random_range`: an index below `n` drawn
/// from the thread-local generator, which the operating system seeds.
#[verifier::external_body]
fn random_index(n: usize) -> (r: usize)
    requires
        n > 0,
    ensures
        r < n,
{
    rand::rng().random_range(0..n)
}

/// All words of the corpus, in the order of its word table; never empty, and
/// no word in it is empty.
pub fn all(corpus: &Corpus) -> (r: &[String])
    ensures
        views(r@) == corpus.words_view(),
        r@.len() > 0,
        forall|j: int| 0 <= j < r@.len() ==> (#[trigger] r@[j])@.len() > 0,
{
    proof {
        use_type_invariant(corpus);
        assert forall|j: int| 0 <= j < corpus.words@.len() implies (
        #[trigger] corpus.words@[j])@.len() > 0 by {
            assert(corpus.words_view()[j].len() > 0);
        }
    }
    corpus.words.as_slice()
}

/// A word of the corpus, drawn uniformly at random.
pub fn get(corpus: &Corpus) -> (r: &String)
    ensures
        corpus.words_view().contains(r@),
{
    let ws = all(corpus);
    let i = random_index(ws.len());
    proof {
        assert(corpus.words_view()[i as int] == ws@[i as int]@);
    }
    &ws[i]
}

/// All words of exactly `len` characters, in the order of the word table;
/// `None` when the corpus has no such word.
pub fn all_len(len: usize, corpus: &Corpus) -> (r: Option<&[String]>)
    ensures
        r is Some <==> of_len(corpus.words_view(), len as nat).len() > 0,
        r matches Some(s) ==> views(s@) == of_len(corpus.words_view(), len as nat),
{
    proof {
        use_type_invariant(corpus);
    }
    match len_map_get(&corpus.by_len, len) {
        Some(v) => Some(v.as_slice()),
        None => None,
    }
}

/// A word of exactly `len` characters, drawn uniformly at random; `None`
/// when the corpus has no such word.
pub fn get_len(len: usize, corpus: &Corpus) -> (r: Option<&String>)
    ensures
        r is Some <==> of_len(corpus.words_view(), len as nat).len() > 0,
        r matches Some(w) ==> w@.len() == len && corpus.words_view().contains(w@),
{
    match all_len(len, corpus) {
        Some(ws) => {
            let i = random_index(ws.len());
            proof {
                let f = of_len(corpus.words_view(), len as nat);
                assert(f[i as int] == ws@[i as int]@);
                lemma_of_len_member(corpus.words_view(), len as nat, i as int);
            }
            Some(&ws[i])
        },
        None => None,
    }
}

/// All words whose first character is `ch`, in the order of the word table;
/// `None` when no word of the corpus starts with it.
pub fn all_starts_with(ch: char, corpus: &Corpus) -> (r: Option<&[String]>)
    ensures
        r is Some <==> starting_with(corpus.words_view(), ch).len() > 0,
        r matches Some(s) ==> views(s@) == starting_with(corpus.words_view(), ch),
{
    proof {
        use_type_invariant(corpus);
    }
    match char_map_get(&corpus.by_start, ch) {
        Some(v) => Some(v.as_slice()),
        None => None,
    }
}

/// A word whose first character is `ch`, drawn uniformly at random; `None`
/// when no word of the corpus starts with it.
pub fn get_starts_with(ch: char, corpus: &Corpus) -> (r: Option<&String>)
    ensures
        r is Some <==> starting_with(corpus.words_view(), ch).len() > 0,
        r matches Some(w) ==> w@.len() > 0 && w@[0] == ch && corpus.words_view().contains(w@),
{
    match all_starts_with(ch, corpus) {
        Some(ws) => {
            let i = random_index(ws.len());
            proof {
                let f = starting_with(corpus.words_view(), ch);
                assert(f[i as int] == ws@[i as int]@);
                lemma_starting_with_member(corpus.words_view(), ch, i as int);
            }
            Some(&ws[i])
        },
        None => None,
    }
}

} // verus!
