//! Whitespace tokenizer backed by a vocabulary list. Known words map to
//! their vocabulary index; unknown words hash (djb2) into the vocabulary range.

use vstd::prelude::*;
use crate::text::{chars_of, chars_eq, is_white_space, push_char, string_of, unicode_white_space};

verus! {

/// Complete words seen so far and the word in progress, scanning `s` left
/// to right and splitting at Unicode white space.
pub open spec fn split_ws(s: Seq<char>) -> (Seq<Seq<char>>, Seq<char>)
    decreases s.len(),
{
    if s.len() == 0 {
        (Seq::empty(), Seq::empty())
    } else {
        let (ws, cur) = split_ws(s.drop_last());
        let c = s.last();
        if unicode_white_space(c) {
            if cur.len() > 0 {
                (ws.push(cur), Seq::empty())
            } else {
                (ws, Seq::empty())
            }
        } else {
            (ws, cur.push(c))
        }
    }
}

/// The words of `s`: its maximal runs of non-white-space characters.
pub open spec fn words(s: Seq<char>) -> Seq<Seq<char>> {
    let (ws, cur) = split_ws(s);
    if cur.len() > 0 {
        ws.push(cur)
    } else {
        ws
    }
}

/// The words of `s` as character vectors.
pub fn split_words(s: &Vec<char>) -> (r: Vec<Vec<char>>)
    ensures
        r@.len() == words(s@).len(),
        forall|k: int| 0 <= k < r@.len() ==> (#[trigger] r@[k])@ == words(s@)[k],
{
    let mut out: Vec<Vec<char>> = Vec::new();
    let mut cur: Vec<char> = Vec::new();
    let mut i: usize = 0;
    while i < s.len()
        invariant
            i <= s@.len(),
            split_ws(s@.take(i as int)).1 == cur@,
            out@.len() == split_ws(s@.take(i as int)).0.len(),
            forall|k: int| 0 <= k < out@.len() ==> (#[trigger] out@[k])@ == split_ws(s@.take(i as int)).0[k],
        decreases s@.len() - i,
    {
        let c = s[i];
        proof {
            assert(s@.take(i + 1).drop_last() =~= s@.take(i as int));
        }
        if is_white_space(c) {
            if cur.len() > 0 {
                out.push(cur);
                cur = Vec::new();
            }
        } else {
            cur.push(c);
        }
        i = i + 1;
    }
    proof {
        assert(s@.take(s@.len() as int) =~= s@);
    }
    if cur.len() > 0 {
        out.push(cur);
    }
    out
}


/// djb2 over a byte string: `h = h * 33 + b` modulo 2^32, from 5381.
pub open spec fn djb2_spec(bytes: Seq<u8>) -> u32
    decreases bytes.len(),
{
    if bytes.len() == 0 {
        5381
    } else {
        djb2_spec(bytes.drop_last()).wrapping_mul(33).wrapping_add(bytes.last() as u32)
    }
}

pub open spec fn vocab_view(v: Seq<String>) -> Seq<Seq<char>> {
    v.map_values(|s: String| s@)
}

/// The last vocabulary index holding `w`, if any.
pub open spec fn last_index_of(vocab: Seq<Seq<char>>, w: Seq<char>) -> Option<int>
    decreases vocab.len(),
{
    if vocab.len() == 0 {
        None
    } else if vocab.last() == w {
        Some(vocab.len() - 1)
    } else {
        last_index_of(vocab.drop_last(), w)
    }
}

/// The token id of one word: its vocabulary index, else its djb2 hash
/// reduced into the vocabulary range.
pub open spec fn token_id(vocab: Seq<Seq<char>>, w: Seq<char>) -> u32 {
    match last_index_of(vocab, w) {
        Some(i) => i as u32,
        None => (djb2_spec(vstd::utf8::encode_utf8(w)) % (if vocab.len() == 0 { 1 } else { vocab.len() }) as u32) as u32,
    }
}

/// The first index holding one of the unknown-token spellings, else 0.
pub open spec fn unk_index(vocab: Seq<Seq<char>>) -> nat
    decreases vocab.len(),
{
    if vocab.len() == 0 {
        0
    } else {
        let prev = unk_index(vocab.drop_last());
        let w = vocab.last();
        if first_unk(vocab.drop_last()) {
            prev
        } else if is_unk_name(w) {
            (vocab.len() - 1) as nat
        } else {
            0
        }
    }
}

/// One of the spellings of the unknown token.
pub open spec fn is_unk_name(w: Seq<char>) -> bool {
    w == "<unk>"@ || w == "[UNK]"@ || w == "<UNK>"@
}

/// Whether some entry is one of the unknown-token spellings.
pub open spec fn first_unk(vocab: Seq<Seq<char>>) -> bool {
    exists|i: int| 0 <= i < vocab.len() && is_unk_name(#[trigger] vocab[i])
}

/// Tokens of `ids` that name vocabulary entries, joined by single spaces.
pub open spec fn decoded(vocab: Seq<Seq<char>>, ids: Seq<u32>) -> Seq<char>
    decreases ids.len(),
{
    if ids.len() == 0 {
        Seq::empty()
    } else {
        let prev = decoded(vocab, ids.drop_last());
        let id = ids.last() as int;
        if id < vocab.len() {
            if prev.len() == 0 && !has_known(vocab, ids.drop_last()) {
                vocab[id]
            } else {
                prev + seq![' '] + vocab[id]
            }
        } else {
            prev
        }
    }
}

/// Whether some id names a vocabulary entry.
pub open spec fn has_known(vocab: Seq<Seq<char>>, ids: Seq<u32>) -> bool {
    exists|k: int| 0 <= k < ids.len() && (#[trigger] ids[k] as int) < vocab.len()
}

/// Words joined by single spaces.
pub open spec fn space_joined(ws: Seq<Seq<char>>) -> Seq<char>
    decreases ws.len(),
{
    if ws.len() == 0 {
        Seq::empty()
    } else if ws.len() == 1 {
        ws[0]
    } else {
        space_joined(ws.drop_last()) + seq![' '] + ws.last()
    }
}

pub struct Tokenizer {
    pub vocab: Vec<String>,
    entries: Vec<Vec<char>>,
    unk_id: u32,
}

impl Tokenizer {
    pub closed spec fn well_formed(&self) -> bool {
        &&& self.entries@.len() == self.vocab@.len()
        &&& forall|i: int| 0 <= i < self.vocab@.len() ==> (#[trigger] self.entries@[i])@ == self.vocab@[i]@
        &&& self.vocab@.len() <= u32::MAX
    }

    /// The vocabulary, as given.
    pub closed spec fn vocabulary(&self) -> Seq<String> {
        self.vocab@
    }

    /// The vocabulary entries.
    pub closed spec fn entries_view(&self) -> Seq<Seq<char>> {
        vocab_view(self.vocab@)
    }

    pub closed spec fn unk(&self) -> u32 {
        self.unk_id
    }

    pub fn from_vocab(vocab: Vec<String>) -> (r: Self)
        requires
            vocab@.len() <= u32::MAX,
        ensures
            r.well_formed(),
            r.vocabulary() == vocab@,
            r.entries_view() == vocab_view(vocab@),
            r.unk() == unk_index(vocab_view(vocab@)),
    {
        let mut entries: Vec<Vec<char>> = Vec::new();
        let mut unk: usize = 0;
        let mut found = false;
        let mut i: usize = 0;
        while i < vocab.len()
            invariant
                i <= vocab@.len(),
                vocab@.len() <= u32::MAX,
                entries@.len() == i,
                forall|k: int| 0 <= k < i ==> (#[trigger] entries@[k])@ == vocab@[k]@,
                found == first_unk(vocab_view(vocab@).take(i as int)),
                unk <= i,
                unk == unk_index(vocab_view(vocab@).take(i as int)),
            decreases vocab@.len() - i,
        {
            let cs = chars_of(vocab[i].as_str());
            let ghost vv = vocab_view(vocab@);
            let ghost t0 = vv.take(i as int);
            let ghost t1 = vv.take(i + 1);
            proof {
                assert(vv.take(i + 1).drop_last() =~= vv.take(i as int));
                assert(vv.take(i + 1).last() == cs@);
            }
            if !found {
                let is_unk = crate::text::chars_eq_str(&cs, "<unk>") || crate::text::chars_eq_str(&cs, "[UNK]")
                    || crate::text::chars_eq_str(&cs, "<UNK>");
                if is_unk {
                    unk = i;
                    found = true;
                    proof {
                        assert(t1[i as int] == cs@);
                    }
                }
            } else {
                proof {
                    let j = choose|j: int| 0 <= j < t0.len() && is_unk_name(#[trigger] t0[j]);
                    assert(t1[j] == t0[j]);
                }
            }
            proof {
                if !first_unk(t0) && first_unk(t1) {
                    let j = choose|j: int| 0 <= j < t1.len() && is_unk_name(#[trigger] t1[j]);
                    if j < i {
                        assert(t0[j] == t1[j]);
                    }
                }
                if first_unk(t0) {
                    let j = choose|j: int| 0 <= j < t0.len() && is_unk_name(#[trigger] t0[j]);
                    assert(t1[j] == t0[j]);
                }
            }
            entries.push(cs);
            i = i + 1;
        }
        proof {
            assert(vocab_view(vocab@).take(vocab@.len() as int) =~= vocab_view(vocab@));
        }
        Tokenizer { vocab, entries, unk_id: unk as u32 }
    }

    /// The tokenizer a model file's vocabulary gives: none for an empty
    /// vocabulary, and none for one too large for 32-bit token ids.
    pub fn for_model(vocab: Vec<String>) -> (r: Option<Self>)
        ensures
            vocab@.len() == 0 || vocab@.len() > u32::MAX ==> r is None,
            0 < vocab@.len() <= u32::MAX ==> (r matches Some(t) && t.well_formed() && t.vocabulary() == vocab@
                && t.entries_view() == vocab_view(vocab@) && t.unk() == unk_index(vocab_view(vocab@))),
    {
        if vocab.len() == 0 || vocab.len() > 0xffff_ffff {
            None
        } else {
            Some(Tokenizer::from_vocab(vocab))
        }
    }

    /// A well-formed tokenizer's vocabulary fits 32-bit token ids.
    pub proof fn lemma_vocab_fits(&self)
        requires
            self.well_formed(),
        ensures
            self.entries_view().len() <= u32::MAX,
    {
    }

    pub fn vocab_size(&self) -> (r: usize)
        ensures
            r == self.entries_view().len(),
    {
        self.vocab.len()
    }

    fn lookup(&self, w: &Vec<char>) -> (r: Option<usize>)
        requires
            self.well_formed(),
        ensures
            r matches Some(i) ==> last_index_of(vocab_view(self.vocab@), w@) == Some(i as int),
            r is None ==> last_index_of(vocab_view(self.vocab@), w@) is None,
    {
        let ghost vv = vocab_view(self.vocab@);
        let mut i = self.entries.len();
        proof {
            assert(vv.take(i as int) =~= vv);
        }
        while i > 0
            invariant
                i <= self.entries@.len(),
                self.well_formed(),
                vv == vocab_view(self.vocab@),
                last_index_of(vv, w@) == last_index_of(vv.take(i as int), w@),
            decreases i,
        {
            proof {
                assert(vv.take(i as int).drop_last() =~= vv.take(i - 1));
                assert(vv.take(i as int).last() == self.entries@[i - 1]@);
            }
            if chars_eq(&self.entries[i - 1], w) {
                return Some(i - 1);
            }
            i = i - 1;
        }
        None
    }

    /// Split by white space and map every word to its token id.
    pub fn encode(&self, text: &str) -> (r: Vec<u32>)
        requires
            self.well_formed(),
        ensures
            r@ == encoded(self.entries_view(), text@),
    {
        let cs = chars_of(text);
        let mut out: Vec<u32> = Vec::new();
        let mut cur: Vec<char> = Vec::new();
        let mut i: usize = 0;
        let ghost vv = vocab_view(self.vocab@);
        while i < cs.len()
            invariant
                i <= cs@.len(),
                cs@ == text@,
                self.well_formed(),
                vv == vocab_view(self.vocab@),
                split_ws(cs@.take(i as int)).1 == cur@,
                out@.len() == split_ws(cs@.take(i as int)).0.len(),
                forall|k: int| 0 <= k < out@.len() ==> #[trigger] out@[k] == token_id(vv, split_ws(cs@.take(i as int)).0[k]),
            decreases cs@.len() - i,
        {
            let c = cs[i];
            proof {
                assert(cs@.take(i + 1).drop_last() =~= cs@.take(i as int));
            }
            if is_white_space(c) {
                if cur.len() > 0 {
                    let id = self.word_id(&cur);
                    out.push(id);
                    cur = Vec::new();
                }
            } else {
                cur.push(c);
            }
            i = i + 1;
        }
        proof {
            assert(cs@.take(cs@.len() as int) =~= cs@);
        }
        if cur.len() > 0 {
            let id = self.word_id(&cur);
            out.push(id);
        }
        proof {
            assert(out@ =~= encoded(vv, text@));
        }
        out
    }

    fn word_id(&self, w: &Vec<char>) -> (r: u32)
        requires
            self.well_formed(),
        ensures
            r == token_id(vocab_view(self.vocab@), w@),
    {
        match self.lookup(w) {
            Some(i) => i as u32,
            None => {
                let s = string_of(w);
                let h = djb2(s.as_str());
                let n: u32 = if self.vocab.len() == 0 { 1 } else { self.vocab.len() as u32 };
                h % n
            },
        }
    }

    /// The vocabulary entries named by `ids` (others are skipped), joined by
    /// single spaces.
    pub fn decode(&self, ids: &[u32]) -> (r: String)
        ensures
            r@ == decoded(self.entries_view(), ids@),
    {
        let ghost vv = vocab_view(self.vocab@);
        let mut out = String::new();
        let mut any = false;
        let mut k: usize = 0;
        while k < ids.len()
            invariant
                k <= ids@.len(),
                vv == vocab_view(self.vocab@),
                out@ == decoded(vv, ids@.take(k as int)),
                any == has_known(vv, ids@.take(k as int)),
            decreases ids@.len() - k,
        {
            let id = ids[k] as usize;
            let ghost p0 = ids@.take(k as int);
            let ghost p1 = ids@.take(k + 1);
            proof {
                assert(ids@.take(k + 1).drop_last() =~= ids@.take(k as int));
                lemma_decoded_empty(vv, ids@.take(k as int));
            }
            if id < self.vocab.len() {
                if any {
                    push_char(&mut out, ' ');
                }
                let cs = chars_of(self.vocab[id].as_str());
                let mut j: usize = 0;
                let ghost before = out@;
                while j < cs.len()
                    invariant
                        j <= cs@.len(),
                        out@ == before + cs@.take(j as int),
                    decreases cs@.len() - j,
                {
                    push_char(&mut out, cs[j]);
                    proof {
                        assert(before + cs@.take(j + 1) =~= (before + cs@.take(j as int)).push(cs@[j as int]));
                    }
                    j = j + 1;
                }
                proof {
                    assert(cs@.take(cs@.len() as int) =~= cs@);
                    assert(has_known(vv, p1)) by {
                        assert(p1[k as int] == ids@[k as int]);
                    }
                }
                any = true;
            } else {
                proof {
                    if has_known(vv, p1) {
                        let m = choose|m: int| 0 <= m < p1.len() && (#[trigger] p1[m] as int) < vv.len();
                        assert(p0[m] == p1[m]);
                    }
                    if has_known(vv, p0) {
                        let m = choose|m: int| 0 <= m < p0.len() && (#[trigger] p0[m] as int) < vv.len();
                        assert(p1[m] == p0[m]);
                    }
                }
            }
            proof {
                if has_known(vv, p0) {
                    let m = choose|m: int| 0 <= m < p0.len() && (#[trigger] p0[m] as int) < vv.len();
                    assert(p1[m] == p0[m]);
                }
            }
            k = k + 1;
        }
        proof {
            assert(ids@.take(ids@.len() as int) =~= ids@);
        }
        out
    }
}

/// The token ids of the words of `text`.
pub open spec fn encoded(vocab: Seq<Seq<char>>, text: Seq<char>) -> Seq<u32> {
    words(text).map_values(|w: Seq<char>| token_id(vocab, w))
}

proof fn lemma_last_index_of(vocab: Seq<Seq<char>>, w: Seq<char>)
    ensures
        last_index_of(vocab, w) matches Some(i) ==> 0 <= i < vocab.len() && vocab[i] == w,
    decreases vocab.len(),
{
    if vocab.len() > 0 && vocab.last() != w {
        lemma_last_index_of(vocab.drop_last(), w);
    }
}

proof fn lemma_decode_known_words(vocab: Seq<Seq<char>>, ws: Seq<Seq<char>>)
    requires
        vocab.len() <= u32::MAX,
        forall|k: int| 0 <= k < ws.len() ==> last_index_of(vocab, #[trigger] ws[k]) is Some,
    ensures
        decoded(vocab, ws.map_values(|w: Seq<char>| token_id(vocab, w))) == space_joined(ws),
    decreases ws.len(),
{
    let ids = ws.map_values(|w: Seq<char>| token_id(vocab, w));
    if ws.len() > 0 {
        let d = ws.drop_last();
        assert(ids.drop_last() =~= d.map_values(|w: Seq<char>| token_id(vocab, w)));
        assert forall|k: int| 0 <= k < d.len() implies last_index_of(vocab, #[trigger] d[k]) is Some by {
            assert(d[k] == ws[k]);
        }
        lemma_decode_known_words(vocab, d);
        lemma_last_index_of(vocab, ws.last());
        assert(ws[ws.len() - 1] == ws.last());
        assert(ids.last() == token_id(vocab, ws.last()));
        if ws.len() > 1 {
            lemma_last_index_of(vocab, ws[0]);
            assert(ids.drop_last()[0] == token_id(vocab, ws[0]));
            assert(has_known(vocab, ids.drop_last()));
        }
    }
}

/// Decoding undoes encoding for text made of vocabulary words: the words
/// come back joined by single spaces.
pub proof fn lemma_decode_encode(vocab: Seq<Seq<char>>, text: Seq<char>)
    requires
        vocab.len() <= u32::MAX,
        forall|k: int| 0 <= k < words(text).len() ==> last_index_of(vocab, #[trigger] words(text)[k]) is Some,
    ensures
        decoded(vocab, encoded(vocab, text)) == space_joined(words(text)),
{
    lemma_decode_known_words(vocab, words(text));
}

proof fn lemma_known_word(vocab: Seq<Seq<char>>, w: Seq<char>, j: int)
    requires
        0 <= j < vocab.len(),
        vocab[j] == w,
    ensures
        last_index_of(vocab, w) is Some,
    decreases vocab.len(),
{
    if vocab.last() != w {
        assert(j < vocab.len() - 1);
        assert(vocab.drop_last()[j] == w);
        lemma_known_word(vocab.drop_last(), w, j);
    }
}

/// Encoding gives one id per white-space-separated word; every id is below
/// the vocabulary size (below 1 for an empty vocabulary), and a word that
/// the vocabulary holds gets an id naming that word.
pub proof fn lemma_encode_ids(vocab: Seq<Seq<char>>, text: Seq<char>)
    requires
        vocab.len() <= u32::MAX,
    ensures
        encoded(vocab, text).len() == words(text).len(),
        forall|i: int|
            0 <= i < words(text).len() ==> (#[trigger] encoded(vocab, text)[i] as int) < (if vocab.len() == 0 {
                1
            } else {
                vocab.len() as int
            }),
        forall|i: int|
            0 <= i < words(text).len() && (exists|j: int| 0 <= j < vocab.len() && vocab[j] == words(text)[i])
                ==> vocab[#[trigger] encoded(vocab, text)[i] as int] == words(text)[i],
{
    let ws = words(text);
    assert forall|i: int| 0 <= i < ws.len() implies (#[trigger] encoded(vocab, text)[i] as int) < (if vocab.len() == 0 {
        1
    } else {
        vocab.len() as int
    }) by {
        lemma_last_index_of(vocab, ws[i]);
    }
    assert forall|i: int|
        0 <= i < ws.len() && (exists|j: int| 0 <= j < vocab.len() && vocab[j] == ws[i]) implies vocab[#[trigger] encoded(
        vocab,
        text,
    )[i] as int] == ws[i] by {
        let j = choose|j: int| 0 <= j < vocab.len() && vocab[j] == ws[i];
        lemma_known_word(vocab, ws[i], j);
        lemma_last_index_of(vocab, ws[i]);
    }
}

proof fn lemma_decoded_empty(vocab: Seq<Seq<char>>, ids: Seq<u32>)
    ensures
        !has_known(vocab, ids) ==> decoded(vocab, ids).len() == 0,
    decreases ids.len(),
{
    if ids.len() > 0 {
        if !has_known(vocab, ids) {
            assert(!has_known(vocab, ids.drop_last())) by {
                if has_known(vocab, ids.drop_last()) {
                    let d = ids.drop_last();
                    let m = choose|m: int| 0 <= m < d.len() && (#[trigger] d[m] as int) < vocab.len();
                    assert(ids[m] == ids.drop_last()[m]);
                }
            }
            assert(!((ids.last() as int) < vocab.len())) by {
                if (ids.last() as int) < vocab.len() {
                    assert(ids[ids.len() - 1] == ids.last());
                }
            }
        }
        lemma_decoded_empty(vocab, ids.drop_last());
    }
}

/// djb2 hash of the UTF-8 bytes of `s`.
pub fn djb2(s: &str) -> (r: u32)
    ensures
        r == djb2_spec(vstd::utf8::encode_utf8(s@)),
{
    let bytes = s.as_bytes();
    let mut h: u32 = 5381;
    let mut i: usize = 0;
    while i < bytes.len()
        invariant
            i <= bytes@.len(),
            bytes@ == vstd::utf8::encode_utf8(s@),
            h == djb2_spec(bytes@.take(i as int)),
        decreases bytes@.len() - i,
    {
        proof {
            assert(bytes@.take(i + 1).drop_last() =~= bytes@.take(i as int));
        }
        h = h.wrapping_mul(33).wrapping_add(bytes[i] as u32);
        i = i + 1;
    }
    proof {
        assert(bytes@.take(bytes@.len() as int) =~= bytes@);
    }
    h
}

} // verus!
