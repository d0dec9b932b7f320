//! Word-level tokenization against a model vocabulary.
//!
//! Text is split at whitespace; each word is looked up as it is, then in
//! lowercase. A word found nowhere becomes the begin-of-sequence token.
//! Decoding drops the SentencePiece word marker `'\u{2581}'` at the start
//! of a token's text.
use crate::text::{char_is_space, is_space};
use vstd::prelude::*;

verus! {

/// The vocabulary of a model.
#[derive(Debug, Clone)]
pub struct Vocabulary {
    /// Token id → token text.
    pub id_to_token: Vec<String>,
    /// Tokenizer kind (for instance `"llama"`).
    pub model_type: String,
    /// Begin-of-sequence token id.
    pub bos_token_id: u32,
    /// End-of-sequence token id.
    pub eos_token_id: u32,
}

/// The SentencePiece word marker `'\u{2581}'`.
pub open spec fn word_marker() -> char {
    '\u{2581}'
}

/// Texts of the tokens.
pub open spec fn token_views(toks: Seq<String>) -> Seq<Seq<char>> {
    toks.map_values(|s: String| s@)
}

/// Index of the last token equal to `w`, if any (a later entry replaces
/// an earlier one with the same text).
pub open spec fn last_index_of(toks: Seq<Seq<char>>, w: Seq<char>) -> Option<nat>
    decreases toks.len(),
{
    if toks.len() == 0 {
        None
    } else if toks.last() == w {
        Some((toks.len() - 1) as nat)
    } else {
        last_index_of(toks.drop_last(), w)
    }
}

/// The words of `s`: its maximal runs of non-whitespace characters, in
/// order, as `str::split_whitespace` gives them.
pub open spec fn split_ws(s: Seq<char>) -> Seq<Seq<char>>
    decreases s.len(),
{
    if s.len() == 0 {
        Seq::empty()
    } else if is_space(s.last()) {
        split_ws(s.drop_last())
    } else if s.len() >= 2 && !is_space(s[s.len() - 2]) {
        let r = split_ws(s.drop_last());
        r.update(r.len() - 1, r.last().push(s.last()))
    } else {
        split_ws(s.drop_last()).push(seq![s.last()])
    }
}

/// Lowercase mapping of `str::to_lowercase`.
pub uninterp spec fn lowercase_of(s: Seq<char>) -> Seq<char>;

/// `str::to_lowercase`: the text mapped to lowercase by the Unicode case
/// tables of the standard library.
#[verifier::external_body]
fn lowercase(s: &str) -> (r: String)
    ensures
        r@ == lowercase_of(s@),
{
    s.to_lowercase()
}

/// `s` without one leading word marker.
pub open spec fn strip_marker(s: Seq<char>) -> Seq<char> {
    if s.len() > 0 && s[0] == word_marker() {
        s.drop_first()
    } else {
        s
    }
}

impl Vocabulary {
    /// Texts of the tokens, by id.
    pub open spec fn tokens(&self) -> Seq<Seq<char>> {
        token_views(self.id_to_token@)
    }

    /// Id of the last token with text `w`, if any.
    pub open spec fn find_spec(&self, w: Seq<char>) -> Option<u32> {
        match last_index_of(self.tokens(), w) {
            Some(i) => Some(i as u32),
            None => None,
        }
    }

    /// Token id of word `w` whose lowercase form is `lower`: the word
    /// itself, else its lowercase form, else the begin-of-sequence id.
    pub open spec fn word_id(&self, w: Seq<char>, lower: Seq<char>) -> u32 {
        match self.find_spec(w) {
            Some(id) => id,
            None => match self.find_spec(lower) {
                Some(id) => id,
                None => self.bos_token_id,
            },
        }
    }

    /// Token ids of `text`: one per word, or the begin-of-sequence id
    /// alone when the text has no word.
    pub open spec fn encode_spec(&self, text: Seq<char>) -> Seq<u32> {
        let ws = split_ws(text);
        if ws.len() == 0 {
            seq![self.bos_token_id]
        } else {
            ws.map_values(|w: Seq<char>| self.word_id(w, lowercase_of(w)))
        }
    }

    /// Text of token `id`, or `"<unk>"` for an id out of the vocabulary.
    pub open spec fn token_text(&self, id: u32) -> Seq<char> {
        if id < self.id_to_token@.len() {
            self.tokens()[id as int]
        } else {
            "<unk>"@
        }
    }

    /// The texts of `ids` joined, each without a leading word marker.
    pub open spec fn decode_spec(&self, ids: Seq<u32>) -> Seq<char>
        decreases ids.len(),
    {
        if ids.len() == 0 {
            Seq::empty()
        } else {
            self.decode_spec(ids.drop_last()) + strip_marker(self.token_text(ids.last()))
        }
    }

    /// A vocabulary with these tokens; the begin- and end-of-sequence ids
    /// default to `1` and `2`.
    pub fn from_tokens(
        id_to_token: Vec<String>,
        model_type: String,
        bos_token_id: Option<u32>,
        eos_token_id: Option<u32>,
    ) -> (v: Self)
        ensures
            v.id_to_token@ == id_to_token@,
            v.model_type@ == model_type@,
            v.bos_token_id == (match bos_token_id {
                Some(id) => id,
                None => 1,
            }),
            v.eos_token_id == (match eos_token_id {
                Some(id) => id,
                None => 2,
            }),
    {
        let bos = match bos_token_id {
            Some(id) => id,
            None => 1,
        };
        let eos = match eos_token_id {
            Some(id) => id,
            None => 2,
        };
        Vocabulary { id_to_token, model_type, bos_token_id: bos, eos_token_id: eos }
    }

    fn find(&self, w: &String) -> (r: Option<u32>)
        ensures
            r == self.find_spec(w@),
    {
        let ghost toks = self.tokens();
        let mut i: usize = self.id_to_token.len();
        assert(toks.subrange(0, i as int) =~= toks);
        while i > 0
            invariant
                toks == self.tokens(),
                i <= self.id_to_token@.len(),
                last_index_of(toks, w@) == last_index_of(toks.subrange(0, i as int), w@),
            decreases i,
        {
            assert(toks.subrange(0, i as int).drop_last() =~= toks.subrange(0, i - 1));
            if self.id_to_token[i - 1] == *w {
                #[verifier::truncate]
                let id = (i - 1) as u32;
                return Some(id);
            }
            i = i - 1;
        }
        None
    }

    /// Token id of a word, given the word's lowercase form (see
    /// [`Vocabulary::word_id`]).
    pub fn lookup_word(&self, word: &str, lowered: &str) -> (id: u32)
        ensures
            id == self.word_id(word@, lowered@),
    {
        let w = word.to_owned();
        if let Some(id) = self.find(&w) {
            return id;
        }
        let l = lowered.to_owned();
        if let Some(id) = self.find(&l) {
            return id;
        }
        self.bos_token_id
    }

    /// Token ids of `text`: each word is looked up as it is, then in
    /// lowercase, and falls back to the begin-of-sequence id; a text
    /// without words gives that id alone.
    pub fn encode(&self, text: &str) -> (ids: Vec<u32>)
        ensures
            ids@ == self.encode_spec(text@),
    {
        let words = split_words(text);
        let ghost ws = split_ws(text@);
        let mut ids: Vec<u32> = Vec::new();
        let mut i: usize = 0;
        while i < words.len()
            invariant
                ws == split_ws(text@),
                token_views(words@) == ws,
                i <= words@.len(),
                ids@ == ws.subrange(0, i as int).map_values(
                    |w: Seq<char>| self.word_id(w, lowercase_of(w)),
                ),
            decreases words@.len() - i,
        {
            let lower = lowercase(words[i].as_str());
            let id = self.lookup_word(words[i].as_str(), lower.as_str());
            ids.push(id);
            assert(ws[i as int] == words@[i as int]@);
            assert(ws.subrange(0, i + 1).map_values(|w: Seq<char>| self.word_id(w, lowercase_of(w)))
                =~= ws.subrange(0, i as int).map_values(
                |w: Seq<char>| self.word_id(w, lowercase_of(w)),
            ).push(id));
            i = i + 1;
        }
        if ids.len() == 0 {
            ids.push(self.bos_token_id);
            assert(ids@ =~= seq![self.bos_token_id]);
        } else {
            assert(ws.subrange(0, i as int) =~= ws);
        }
        ids
    }

    /// Text of token `id`, or `"<unk>"` for an id out of the vocabulary.
    pub fn decode_single(&self, id: u32) -> (s: &str)
        ensures
            s@ == self.token_text(id),
    {
        if (id as usize) < self.id_to_token.len() {
            self.id_to_token[id as usize].as_str()
        } else {
            "<unk>"
        }
    }

    /// The texts of `ids` joined, each without a leading word marker.
    pub fn decode(&self, ids: &[u32]) -> (s: String)
        ensures
            s@ == self.decode_spec(ids@),
    {
        let mut out = String::new();
        let mut i: usize = 0;
        while i < ids.len()
            invariant
                i <= ids@.len(),
                out@ == self.decode_spec(ids@.subrange(0, i as int)),
            decreases ids@.len() - i,
        {
            let t = self.decode_single(ids[i]);
            let n = t.unicode_len();
            if n > 0 && t.get_char(0) == '\u{2581}' {
                out.append(t.substring_char(1, n));
            } else {
                out.append(t);
            }
            assert(ids@.subrange(0, i + 1).drop_last() =~= ids@.subrange(0, i as int));
            assert(out@ =~= self.decode_spec(ids@.subrange(0, i + 1)));
            i = i + 1;
        }
        assert(ids@.subrange(0, i as int) =~= ids@);
        out
    }

    /// Number of tokens.
    pub fn len(&self) -> (n: usize)
        ensures
            n == self.id_to_token@.len(),
    {
        self.id_to_token.len()
    }

    /// `true` iff the vocabulary has no token.
    pub fn is_empty(&self) -> (b: bool)
        ensures
            b == (self.id_to_token@.len() == 0),
    {
        self.id_to_token.len() == 0
    }
}

/// The words of `text`, as `str::split_whitespace` gives them.
pub fn split_words(text: &str) -> (words: Vec<String>)
    ensures
        token_views(words@) == split_ws(text@),
{
    let n = text.unicode_len();
    let mut words: Vec<String> = Vec::new();
    let mut start: usize = 0;
    let mut in_word = false;
    let mut i: usize = 0;
    while i < n
        invariant
            n == text@.len(),
            i <= n,
            start <= i,
            in_word == (i > 0 && !is_space(text@[i - 1])),
            split_ws(text@.subrange(0, i as int)) == token_views(words@) + (if in_word {
                seq![text@.subrange(start as int, i as int)]
            } else {
                Seq::<Seq<char>>::empty()
            }),
        decreases n - i,
    {
        let c = text.get_char(i);
        let ghost pre = text@.subrange(0, i as int);
        let ghost cur = text@.subrange(0, i + 1);
        assert(cur.drop_last() =~= pre);
        assert(cur.last() == c);
        if i > 0 {
            assert(cur[cur.len() - 2] == text@[i - 1]);
        }
        if char_is_space(c) {
            if in_word {
                let ghost before = words@;
                words.push(text.substring_char(start, i).to_owned());
                assert(token_views(words@) =~= token_views(before).push(
                    text@.subrange(start as int, i as int),
                ));
            }
            assert(token_views(words@) + Seq::<Seq<char>>::empty() =~= token_views(words@));
            in_word = false;
        } else {
            if in_word {
                assert(text@.subrange(start as int, i + 1) =~= text@.subrange(
                    start as int,
                    i as int,
                ).push(c));
            } else {
                start = i;
                assert(text@.subrange(start as int, i + 1) =~= seq![c]);
            }
            in_word = true;
        }
        proof {
            let tv = token_views(words@);
            if !is_space(c) && i > 0 && !is_space(text@[i - 1]) {
                let r = split_ws(pre);
                assert(r =~= tv + seq![text@.subrange(start as int, i as int)]);
                assert(split_ws(cur) =~= tv + seq![text@.subrange(start as int, i + 1)]);
            }
        }
        i = i + 1;
    }
    if in_word {
        let ghost before = words@;
        words.push(text.substring_char(start, n).to_owned());
        assert(token_views(words@) =~= token_views(before).push(
            text@.subrange(start as int, n as int),
        ));
    } else {
        assert(token_views(words@) + Seq::<Seq<char>>::empty() =~= token_views(words@));
    }
    assert(text@.subrange(0, n as int) =~= text@);
    words
}

proof fn lemma_last_index_of(toks: Seq<Seq<char>>, w: Seq<char>)
    ensures
        last_index_of(toks, w) matches Some(i) ==> i < toks.len() && toks[i as int] == w,
    decreases toks.len(),
{
    if toks.len() > 0 && toks.last() != w {
        lemma_last_index_of(toks.drop_last(), w);
    }
}

proof fn lemma_decode_prefix(v: Vocabulary, ws: Seq<Seq<char>>, k: int)
    requires
        v.id_to_token@.len() <= u32::MAX + 1,
        0 <= k <= ws.len(),
        forall|i: int|
            0 <= i < ws.len() ==> (#[trigger] last_index_of(v.tokens(), ws[i])) is Some,
        forall|i: int| 0 <= i < ws.len() ==> strip_marker(#[trigger] ws[i]) == ws[i],
    ensures
        v.decode_spec(ws.map_values(|w: Seq<char>| v.word_id(w, lowercase_of(w))).subrange(0, k))
            == ws.subrange(0, k).flatten_alt(),
    decreases k,
{
    let ids = ws.map_values(|w: Seq<char>| v.word_id(w, lowercase_of(w)));
    if k == 0 {
        assert(ids.subrange(0, 0) =~= Seq::<u32>::empty());
        assert(ws.subrange(0, 0) =~= Seq::<Seq<char>>::empty());
    } else {
        lemma_decode_prefix(v, ws, k - 1);
        let w = ws[k - 1];
        assert(last_index_of(v.tokens(), w) is Some);
        lemma_last_index_of(v.tokens(), w);
        let i = last_index_of(v.tokens(), w)->0;
        assert(v.tokens().len() == v.id_to_token@.len());
        assert(v.tokens()[i as int] == w);
        assert(ids[k - 1] == v.word_id(w, lowercase_of(w)));
        assert(ids[k - 1] == i as u32);
        assert(v.token_text(ids[k - 1]) == w);
        assert(strip_marker(w) == w);
        assert(ids.subrange(0, k).drop_last() =~= ids.subrange(0, k - 1));
        assert(ws.subrange(0, k).drop_last() =~= ws.subrange(0, k - 1));
    }
}

/// Decoding the ids of a text gives back its words run together, when
/// each word is a token of the vocabulary and none starts with the word
/// marker.
pub proof fn law_decode_inverts_encode(v: Vocabulary, text: Seq<char>)
    requires
        v.id_to_token@.len() <= u32::MAX + 1,
        split_ws(text).len() > 0,
        forall|i: int|
            0 <= i < split_ws(text).len() ==> (#[trigger] last_index_of(
                v.tokens(),
                split_ws(text)[i],
            )) is Some,
        forall|i: int|
            0 <= i < split_ws(text).len() ==> strip_marker(#[trigger] split_ws(text)[i])
                == split_ws(text)[i],
    ensures
        v.decode_spec(v.encode_spec(text)) == split_ws(text).flatten(),
{
    let ws = split_ws(text);
    lemma_decode_prefix(v, ws, ws.len() as int);
    let ids = ws.map_values(|w: Seq<char>| v.word_id(w, lowercase_of(w)));
    assert(ids.subrange(0, ids.len() as int) =~= ids);
    assert(ws.subrange(0, ws.len() as int) =~= ws);
    ws.lemma_flatten_and_flatten_alt_are_equivalent();
}

/// Every text encodes to at least one id.
pub proof fn law_encode_is_never_empty(v: Vocabulary, text: Seq<char>)
    ensures
        v.encode_spec(text).len() >= 1,
{
}

proof fn lemma_split_ws_nonempty(s: Seq<char>)
    requires
        s.len() > 0,
        !is_space(s.last()),
    ensures
        split_ws(s).len() > 0,
    decreases s.len(),
{
    if s.len() >= 2 && !is_space(s[s.len() - 2]) {
        let d = s.drop_last();
        assert(d.last() == s[s.len() - 2]);
        lemma_split_ws_nonempty(d);
    }
}

/// A whitespace character between two texts splits them: the words of the
/// whole are the words of the first text, then those of the second.
pub proof fn law_whitespace_separates_words(a: Seq<char>, sp: char, b: Seq<char>)
    requires
        is_space(sp),
    ensures
        split_ws(a + seq![sp] + b) == split_ws(a) + split_ws(b),
    decreases b.len(),
{
    let x = a + seq![sp] + b;
    if b.len() == 0 {
        assert(x.drop_last() =~= a);
        assert(split_ws(a) + Seq::<Seq<char>>::empty() =~= split_ws(a));
    } else {
        let b1 = b.drop_last();
        let c = b.last();
        assert(x.drop_last() =~= a + seq![sp] + b1);
        assert(x.last() == c);
        law_whitespace_separates_words(a, sp, b1);
        let sa = split_ws(a);
        let s1 = split_ws(b1);
        if is_space(c) {
        } else {
            assert(x[x.len() - 2] == if b1.len() > 0 { b1.last() } else { sp });
            if b1.len() > 0 && !is_space(b1.last()) {
                assert(b[b.len() - 2] == b1.last());
                lemma_split_ws_nonempty(b1);
                let r = sa + s1;
                assert(r.update(r.len() - 1, r.last().push(c)) =~= sa + s1.update(
                    s1.len() - 1,
                    s1.last().push(c),
                ));
            } else {
                if b.len() >= 2 {
                    assert(b[b.len() - 2] == b1.last());
                }
                assert((sa + s1).push(seq![c]) =~= sa + s1.push(seq![c]));
            }
        }
    }
}

/// A Windows line break separates words as a space does: carriage return
/// and line feed are both whitespace.
pub proof fn law_crlf_separates_words(a: Seq<char>, b: Seq<char>)
    ensures
        split_ws(a + seq!['\r', '\n'] + b) == split_ws(a) + split_ws(b),
{
    law_whitespace_separates_words(a, '\r', seq!['\n'] + b);
    assert(a + seq!['\r', '\n'] + b =~= a + seq!['\r'] + (seq!['\n'] + b));
    law_whitespace_separates_words(Seq::empty(), '\n', b);
    assert(Seq::<char>::empty() + seq!['\n'] + b =~= seq!['\n'] + b);
    assert(split_ws(Seq::<char>::empty()) == Seq::<Seq<char>>::empty());
    assert(Seq::<Seq<char>>::empty() + split_ws(b) =~= split_ws(b));
}

} // verus!
