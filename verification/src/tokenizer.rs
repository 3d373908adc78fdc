//! Byte-pair encoding of text into tokens, and back.

use crate::gguf::{self, GGUFFile, MetadataValue, Value};
use crate::merges::MergeTable;
use crate::sequences;
use vstd::hash_map::StringHashMap;
use vstd::prelude::*;
use vstd::slice::slice_subrange;

verus! {

/// The character that stands for a space in tokens.
pub const SPACE_GLYPH: char = '\u{120}';

/// `String::push`: appends a character.
pub assume_specification[ String::push ](s: &mut String, c: char)
    ensures
        final(s)@ == old(s)@.push(c),
;

/// What a tokenizer knows: the strings of the tokens, the token of each string, the priority of
/// each pair of strings that may be merged, the lowest first, and the strings that are never
/// split into characters.
#[verifier::ext_equal]
pub struct Lexicon {
    pub vocab: Seq<Seq<char>>,
    pub ids: Map<Seq<char>, u32>,
    pub merges: Map<(Seq<char>, Seq<char>), u32>,
    pub specials: Set<Seq<char>>,
}

/// A text with spaces replaced by the character that stands for them.
pub open spec fn glyphs(text: Seq<char>) -> Seq<char> {
    text.map_values(
        |c: char|
            if c == ' ' {
                SPACE_GLYPH
            } else {
                c
            },
    )
}

/// A text with spaces in the place of the character that stands for them.
pub open spec fn spaces(text: Seq<char>) -> Seq<char> {
    text.map_values(
        |c: char|
            if c == SPACE_GLYPH {
                ' '
            } else {
                c
            },
    )
}

impl Lexicon {
    /// The token of a single character; token zero where there is none.
    pub open spec fn char_token(self, c: char) -> u32 {
        if self.ids.contains_key(seq![c]) {
            self.ids[seq![c]]
        } else {
            0
        }
    }

    /// The tokens of the characters of a text.
    pub open spec fn char_tokens(self, text: Seq<char>) -> Seq<u32> {
        glyphs(text).map_values(|c: char| self.char_token(c))
    }

    /// The strings of tokens `i` and `i + 1`.
    pub open spec fn pair(self, tokens: Seq<u32>, i: int) -> (Seq<char>, Seq<char>) {
        (self.vocab[tokens[i] as int], self.vocab[tokens[i + 1] as int])
    }

    /// Tokens `i` and `i + 1` may be merged.
    pub open spec fn mergeable(self, tokens: Seq<u32>, i: int) -> bool {
        &&& 0 <= i < tokens.len() - 1
        &&& self.merges.contains_key(self.pair(tokens, i))
    }

    /// The priority of tokens `i` and `i + 1`.
    pub open spec fn priority(self, tokens: Seq<u32>, i: int) -> u32 {
        self.merges[self.pair(tokens, i)]
    }

    /// Of the pairs that may be merged, the one at `i` is the first of the lowest priority.
    pub open spec fn best(self, tokens: Seq<u32>, i: int) -> bool {
        &&& self.mergeable(tokens, i)
        &&& forall|j: int| #[trigger]
            self.mergeable(tokens, j) ==> {
                &&& self.priority(tokens, i) <= self.priority(tokens, j)
                &&& j < i ==> self.priority(tokens, i) < self.priority(tokens, j)
            }
    }

    /// The string of the two tokens at `i`.
    pub open spec fn joined(self, tokens: Seq<u32>, i: int) -> Seq<char> {
        self.pair(tokens, i).0 + self.pair(tokens, i).1
    }

    /// The tokens with those at `i` and `i + 1` replaced by the token of their joined string.
    pub open spec fn merged(self, tokens: Seq<u32>, i: int) -> Seq<u32> {
        tokens.take(i).push(self.ids[self.joined(tokens, i)]) + tokens.skip(i + 2)
    }

    /// The tokens after the best merge, if there is one and it gives a token.
    pub open spec fn step(self, tokens: Seq<u32>) -> Option<Seq<u32>> {
        if exists|i: int| self.best(tokens, i) {
            let i = choose|i: int| self.best(tokens, i);
            if self.ids.contains_key(self.joined(tokens, i)) {
                Some(self.merged(tokens, i))
            } else {
                None
            }
        } else {
            None
        }
    }

    /// The tokens after all merges, best first.
    pub open spec fn merge_all(self, tokens: Seq<u32>) -> Seq<u32>
        decreases tokens.len(),
    {
        match self.step(tokens) {
            Some(next) if next.len() < tokens.len() => self.merge_all(next),
            _ => tokens,
        }
    }

    /// While merging, no string is asked for of a token that has none.
    pub open spec fn merges_safely(self, tokens: Seq<u32>) -> bool
        decreases tokens.len(),
    {
        tokens.len() >= 2 ==> {
            &&& forall|i: int| 0 <= i < tokens.len() ==> #[trigger] tokens[i] < self.vocab.len()
            &&& match self.step(tokens) {
                Some(next) if next.len() < tokens.len() => self.merges_safely(next),
                _ => true,
            }
        }
    }

    /// The tokens of a text in which no special string is sought.
    pub open spec fn plain(self, text: Seq<char>) -> Seq<u32> {
        self.merge_all(self.char_tokens(text))
    }

    /// A string that becomes one token wherever it stands in a text.
    pub open spec fn is_special(self, s: Seq<char>) -> bool {
        &&& self.specials.contains(s)
        &&& self.ids.contains_key(s)
        &&& s.len() > 0
    }

    /// A special string of `n` characters stands at `i`.
    pub open spec fn special_at(self, text: Seq<char>, i: int, n: int) -> bool {
        &&& 0 <= i
        &&& 0 < n
        &&& i + n <= text.len()
        &&& self.is_special(text.subrange(i, i + n))
    }

    /// Of the special strings in a text, the one of `n` characters at `i` is the longest of the
    /// leftmost.
    pub open spec fn first_special(self, text: Seq<char>, i: int, n: int) -> bool {
        &&& self.special_at(text, i, n)
        &&& forall|j: int, k: int| #[trigger]
            self.special_at(text, j, k) ==> i <= j && (i == j ==> k <= n)
    }

    /// Where the first special string of a text stands, and its length.
    pub open spec fn cut(self, text: Seq<char>) -> Option<(int, int)> {
        if exists|i: int, n: int| self.first_special(text, i, n) {
            let (i, n) = choose|i: int, n: int| self.first_special(text, i, n);
            Some((i, n))
        } else {
            None
        }
    }

    /// The tokens of a text: it is cut at each special string, the leftmost and of these the
    /// longest first; each special string becomes its one token, and the parts in between are
    /// encoded by merging.
    pub open spec fn encoded(self, text: Seq<char>) -> Seq<u32>
        decreases text.len(),
    {
        match self.cut(text) {
            Some((i, n)) if 0 <= i && 0 < n <= text.len() - i => self.plain(text.take(i)).push(
                self.ids[text.subrange(i, i + n)],
            ) + self.encoded(text.skip(i + n)),
            _ => self.plain(text),
        }
    }

    /// Whether a text can be encoded.
    pub open spec fn encodes(self, text: Seq<char>) -> bool
        decreases text.len(),
    {
        match self.cut(text) {
            Some((i, n)) if 0 <= i && 0 < n <= text.len() - i => self.merges_safely(
                self.char_tokens(text.take(i)),
            ) && self.encodes(text.skip(i + n)),
            _ => self.merges_safely(self.char_tokens(text)),
        }
    }

    /// Each character of a text has a token.
    pub open spec fn chars_known(self, text: Seq<char>) -> bool {
        forall|i: int|
            0 <= i < text.len() ==> self.ids.contains_key(seq![#[trigger] glyphs(text)[i]])
    }

    /// Each character of a text outside its special strings has a token.
    pub open spec fn covers(self, text: Seq<char>) -> bool
        decreases text.len(),
    {
        match self.cut(text) {
            Some((i, n)) if 0 <= i && 0 < n <= text.len() - i => self.chars_known(text.take(i))
                && self.covers(text.skip(i + n)),
            _ => self.chars_known(text),
        }
    }

    /// The string of a token; the empty string where it has none.
    pub open spec fn text_of(self, token: u32) -> Seq<char> {
        if token < self.vocab.len() {
            self.vocab[token as int]
        } else {
            Seq::empty()
        }
    }

    /// The strings of tokens, one behind the other.
    pub open spec fn spelled(self, tokens: Seq<u32>) -> Seq<char> {
        sequences::flat(tokens.map_values(|t: u32| self.text_of(t)))
    }

    /// The text of tokens.
    pub open spec fn decoded(self, tokens: Seq<u32>) -> Seq<char> {
        spaces(self.spelled(tokens))
    }

    /// The token of each string has this string.
    pub open spec fn consistent(self) -> bool {
        forall|s: Seq<char>| #[trigger]
            self.ids.contains_key(s) ==> self.ids[s] < self.vocab.len()
                && self.vocab[self.ids[s] as int] == s
    }
}

/// There is only one best pair.
proof fn lemma_best_unique(lex: Lexicon, tokens: Seq<u32>, i: int, j: int)
    requires
        lex.best(tokens, i),
        lex.best(tokens, j),
    ensures
        i == j,
{
    assert(lex.mergeable(tokens, i) && lex.mergeable(tokens, j));
}

/// A merge makes one token of two.
proof fn lemma_step_shorter(lex: Lexicon, tokens: Seq<u32>)
    ensures
        lex.step(tokens) matches Some(next) ==> next.len() == tokens.len() - 1,
{
    if exists|i: int| lex.best(tokens, i) {
        let i = choose|i: int| lex.best(tokens, i);
        assert(lex.mergeable(tokens, i));
    }
}

/// The strings of tokens behind tokens.
proof fn lemma_spelled_add(lex: Lexicon, a: Seq<u32>, b: Seq<u32>)
    ensures
        lex.spelled(a + b) == lex.spelled(a) + lex.spelled(b),
{
    let f = |t: u32| lex.text_of(t);
    assert((a + b).map_values(f) =~= a.map_values(f) + b.map_values(f));
    sequences::lemma_flat_add(a.map_values(f), b.map_values(f));
}

/// The string of a single token.
proof fn lemma_spelled_one(lex: Lexicon, t: u32)
    ensures
        lex.spelled(seq![t]) == lex.text_of(t),
{
    let f = |t: u32| lex.text_of(t);
    assert(seq![t].map_values(f) =~= seq![lex.text_of(t)]);
    sequences::lemma_flat_one(lex.text_of(t));
}

/// A merge keeps the strings of the tokens, one behind the other, and gives a token with a
/// string.
proof fn lemma_step_spelled(lex: Lexicon, tokens: Seq<u32>)
    requires
        lex.consistent(),
        forall|i: int| 0 <= i < tokens.len() ==> #[trigger] tokens[i] < lex.vocab.len(),
    ensures
        lex.step(tokens) matches Some(next) ==> {
            &&& lex.spelled(next) == lex.spelled(tokens)
            &&& forall|i: int| 0 <= i < next.len() ==> #[trigger] next[i] < lex.vocab.len()
        },
{
    if lex.step(tokens) is Some {
        let next = lex.step(tokens)->0;
        let i = choose|i: int| lex.best(tokens, i);
        assert(lex.mergeable(tokens, i));
        let id = lex.ids[lex.joined(tokens, i)];
        let (a, b) = (tokens[i], tokens[i + 1]);
        let (front, back) = (tokens.take(i), tokens.skip(i + 2));
        assert(tokens =~= front + (seq![a] + seq![b]) + back);
        assert(next =~= front + seq![id] + back);
        lemma_spelled_add(lex, front + (seq![a] + seq![b]), back);
        lemma_spelled_add(lex, front, seq![a] + seq![b]);
        lemma_spelled_add(lex, seq![a], seq![b]);
        lemma_spelled_add(lex, front + seq![id], back);
        lemma_spelled_add(lex, front, seq![id]);
        lemma_spelled_one(lex, a);
        lemma_spelled_one(lex, b);
        lemma_spelled_one(lex, id);
        assert(lex.ids.contains_key(lex.joined(tokens, i)));
    }
}

/// Merging keeps the strings of the tokens, one behind the other.
proof fn lemma_merge_all_spelled(lex: Lexicon, tokens: Seq<u32>)
    requires
        lex.consistent(),
        forall|i: int| 0 <= i < tokens.len() ==> #[trigger] tokens[i] < lex.vocab.len(),
    ensures
        lex.merges_safely(tokens),
        lex.spelled(lex.merge_all(tokens)) == lex.spelled(tokens),
    decreases tokens.len(),
{
    lemma_step_spelled(lex, tokens);
    lemma_step_shorter(lex, tokens);
    if lex.step(tokens) is Some {
        lemma_merge_all_spelled(lex, lex.step(tokens)->0);
    }
}

/// The strings of the tokens of single characters, one behind the other.
proof fn lemma_chars_spelled(lex: Lexicon, text: Seq<char>)
    requires
        lex.consistent(),
        lex.chars_known(text),
    ensures
        lex.spelled(lex.char_tokens(text)) == glyphs(text),
        forall|i: int|
            0 <= i < text.len() ==> #[trigger] lex.char_tokens(text)[i] < lex.vocab.len(),
    decreases text.len(),
{
    let tokens = lex.char_tokens(text);
    if text.len() == 0 {
        assert(tokens.map_values(|t: u32| lex.text_of(t)) =~= Seq::<Seq<char>>::empty());
        assert(lex.spelled(tokens) =~= glyphs(text));
    } else {
        let (front, last) = (text.drop_last(), glyphs(text).last());
        assert(glyphs(front) =~= glyphs(text).drop_last());
        assert forall|i: int| 0 <= i < front.len() implies lex.ids.contains_key(
            seq![#[trigger] glyphs(front)[i]],
        ) by {
            assert(glyphs(front)[i] == glyphs(text)[i]);
        }
        lemma_chars_spelled(lex, front);
        let t = lex.char_token(last);
        assert(last == glyphs(text)[text.len() - 1]);
        assert(lex.ids.contains_key(seq![last]));
        assert(tokens =~= lex.char_tokens(front) + seq![t]);
        lemma_spelled_add(lex, lex.char_tokens(front), seq![t]);
        lemma_spelled_one(lex, t);
        assert(glyphs(text) =~= glyphs(front) + seq![last]);
        assert forall|i: int| 0 <= i < text.len() implies #[trigger] tokens[i]
            < lex.vocab.len() by {
            if i < front.len() {
                assert(tokens[i] == lex.char_tokens(front)[i]);
            }
        }
    }
}

/// There is only one first special string.
proof fn lemma_cut(lex: Lexicon, text: Seq<char>, i: int, n: int)
    requires
        lex.first_special(text, i, n),
    ensures
        lex.cut(text) == Some((i, n)),
{
    let (j, k) = choose|j: int, k: int| lex.first_special(text, j, k);
    assert(lex.special_at(text, i, n) && lex.special_at(text, j, k));
}

/// Where a text has a special string, it has a first one.
proof fn lemma_special_cut(lex: Lexicon, text: Seq<char>, i: int, n: int)
    requires
        lex.special_at(text, i, n),
    ensures
        lex.cut(text) is Some,
    decreases i, text.len() - n,
{
    if lex.first_special(text, i, n) {
    } else {
        let (j, k) = choose|j: int, k: int| #[trigger]
            lex.special_at(text, j, k) && !(i <= j && (i == j ==> k <= n));
        lemma_special_cut(lex, text, j, k);
    }
}

/// With a vocabulary in which the token of each string has this string, a text can be encoded and
/// decoding the result gives back the text, where each of its characters outside special strings
/// has a token and none is the one that stands for a space.
pub proof fn law_decode_encode(lex: Lexicon, text: Seq<char>)
    requires
        lex.consistent(),
        lex.covers(text),
        forall|i: int| 0 <= i < text.len() ==> #[trigger] text[i] != SPACE_GLYPH,
    ensures
        lex.encodes(text),
        lex.decoded(lex.encoded(text)) == text,
    decreases text.len(),
{
    match lex.cut(text) {
        Some((i, n)) => {
            assert(lex.special_at(text, i, n));
            let (front, s, back) = (text.take(i), text.subrange(i, i + n), text.skip(i + n));
            let id = lex.ids[s];
            assert forall|k: int| 0 <= k < back.len() implies #[trigger] back[k]
                != SPACE_GLYPH by {
                assert(back[k] == text[i + n + k]);
            }
            law_decode_encode(lex, back);
            lemma_plain_decoded(lex, front);
            lemma_spelled_one(lex, id);
            assert(lex.ids.contains_key(s));
            assert(spaces(s) =~= s);
            let tokens = lex.plain(front);
            assert(tokens.push(id) =~= tokens + seq![id]);
            law_decode_streams(lex, tokens, seq![id]);
            law_decode_streams(lex, tokens.push(id), lex.encoded(back));
            assert(text =~= front + s + back);
        },
        None => {
            lemma_plain_decoded(lex, text);
        },
    }
}

proof fn lemma_plain_decoded(lex: Lexicon, text: Seq<char>)
    requires
        lex.consistent(),
        lex.chars_known(text),
        forall|i: int| 0 <= i < text.len() ==> #[trigger] text[i] != SPACE_GLYPH,
    ensures
        lex.merges_safely(lex.char_tokens(text)),
        lex.decoded(lex.plain(text)) == text,
{
    lemma_chars_spelled(lex, text);
    lemma_merge_all_spelled(lex, lex.char_tokens(text));
    assert(spaces(glyphs(text)) =~= text);
}

/// A text each character of which has a token has one for each character outside its special
/// strings.
pub proof fn law_chars_known_covers(lex: Lexicon, text: Seq<char>)
    requires
        lex.chars_known(text),
    ensures
        lex.covers(text),
    decreases text.len(),
{
    if let Some((i, n)) = lex.cut(text) {
        assert(lex.special_at(text, i, n));
        let (front, back) = (text.take(i), text.skip(i + n));
        assert forall|k: int| 0 <= k < front.len() implies lex.ids.contains_key(
            seq![#[trigger] glyphs(front)[k]],
        ) by {
            assert(glyphs(front)[k] == glyphs(text)[k]);
        }
        assert forall|k: int| 0 <= k < back.len() implies lex.ids.contains_key(
            seq![#[trigger] glyphs(back)[k]],
        ) by {
            assert(glyphs(back)[k] == glyphs(text)[i + n + k]);
        }
        law_chars_known_covers(lex, back);
    }
}

/// A special string is encoded as its one token.
pub proof fn law_special_is_one_token(lex: Lexicon, s: Seq<char>)
    requires
        lex.is_special(s),
    ensures
        lex.encodes(s),
        lex.encoded(s) == seq![lex.ids[s]],
{
    let n = s.len() as int;
    let none = Seq::<char>::empty();
    assert(s.subrange(0, n) =~= s);
    assert(lex.first_special(s, 0, n));
    lemma_cut(lex, s, 0, n);
    assert(s.take(0) =~= none && s.skip(n) =~= none);
    lemma_empty(lex);
    assert(lex.encoded(s) =~= seq![lex.ids[s]]);
}

/// The empty text has no tokens.
proof fn lemma_empty(lex: Lexicon)
    ensures
        lex.plain(Seq::empty()) == Seq::<u32>::empty(),
        lex.encoded(Seq::empty()) == Seq::<u32>::empty(),
        lex.merges_safely(lex.char_tokens(Seq::empty())),
        lex.encodes(Seq::empty()),
{
    let none = Seq::<char>::empty();
    if let Some((i, n)) = lex.cut(none) {
        assert(lex.special_at(none, i, n));
    }
    lemma_merge_all_shorter(lex, lex.char_tokens(none));
    assert(lex.plain(none) =~= Seq::<u32>::empty());
}

/// A text is cut wherever a special string stands in it.
pub proof fn law_specials_are_cut(lex: Lexicon, text: Seq<char>, i: int, n: int)
    requires
        lex.special_at(text, i, n),
    ensures
        lex.cut(text) matches Some((j, k)) && lex.first_special(text, j, k) && j <= i
            && lex.encoded(text) == lex.plain(text.take(j)).push(
            lex.ids[text.subrange(j, j + k)],
        ) + lex.encoded(text.skip(j + k)),
        lex.cut(text) matches Some((j, k)) && forall|p: int, q: int|
            #![trigger text.subrange(p, p + q)]
            0 <= p && 0 < q && p + q <= text.len() && lex.specials.contains(
                text.subrange(p, p + q),
            ) && lex.ids.contains_key(text.subrange(p, p + q)) ==> j < p || j == p && q <= k,
{
    lemma_special_cut(lex, text, i, n);
    let (j, k) = lex.cut(text)->0;
    assert(lex.special_at(text, j, k));
    assert forall|p: int, q: int|
        #![trigger text.subrange(p, p + q)]
        0 <= p && 0 < q && p + q <= text.len() && lex.specials.contains(text.subrange(p, p + q))
            && lex.ids.contains_key(text.subrange(p, p + q)) implies j < p || j == p && q <= k by {
        assert(lex.special_at(text, p, q));
    }
}

/// A text without a special string is encoded by merging alone.
pub proof fn law_without_specials(lex: Lexicon, text: Seq<char>)
    requires
        forall|i: int, n: int| !lex.special_at(text, i, n),
    ensures
        lex.encoded(text) == lex.plain(text),
        lex.encodes(text) == lex.merges_safely(lex.char_tokens(text)),
{
    if let Some((i, n)) = lex.cut(text) {
        assert(lex.special_at(text, i, n));
    }
}

/// A text has no more tokens than characters.
pub proof fn law_encoded_no_longer(lex: Lexicon, text: Seq<char>)
    ensures
        lex.encoded(text).len() <= text.len(),
    decreases text.len(),
{
    if let Some((i, n)) = lex.cut(text) {
        assert(lex.special_at(text, i, n));
        lemma_merge_all_shorter(lex, lex.char_tokens(text.take(i)));
        law_encoded_no_longer(lex, text.skip(i + n));
    } else {
        lemma_merge_all_shorter(lex, lex.char_tokens(text));
    }
}

proof fn lemma_merge_all_shorter(lex: Lexicon, tokens: Seq<u32>)
    ensures
        lex.merge_all(tokens).len() <= tokens.len(),
    decreases tokens.len(),
{
    lemma_step_shorter(lex, tokens);
    if lex.step(tokens) is Some {
        lemma_merge_all_shorter(lex, lex.step(tokens)->0);
    }
}

/// No merge is left to do in the tokens of a text, or of a part of one between special strings.
pub proof fn law_plain_is_final(lex: Lexicon, text: Seq<char>)
    ensures
        lex.step(lex.plain(text)) is None,
{
    lemma_merge_all_final(lex, lex.char_tokens(text));
}

proof fn lemma_merge_all_final(lex: Lexicon, tokens: Seq<u32>)
    ensures
        lex.step(lex.merge_all(tokens)) is None,
    decreases tokens.len(),
{
    lemma_step_shorter(lex, tokens);
    if lex.step(tokens) is Some {
        lemma_merge_all_final(lex, lex.step(tokens)->0);
    }
}

/// Of the neighbours that may be merged, those of the lowest number are, the first ones where
/// several have it: they give way to the token of their joined string, if there is one, and all
/// other tokens stay.
pub proof fn law_best_merge(
    lex: Lexicon,
    tokens: Seq<u32>,
    pairs: Seq<(Seq<char>, Seq<char>)>,
    a: int,
)
    requires
        0 <= a < tokens.len() - 1,
        pairs == Seq::new(
            (tokens.len() - 1) as nat,
            |b: int| (lex.vocab[tokens[b] as int], lex.vocab[tokens[b + 1] as int]),
        ),
        lex.merges.contains_key(pairs[a]),
        forall|b: int|
            0 <= b < pairs.len() && lex.merges.contains_key(#[trigger] pairs[b]) ==> lex.merges[pairs[a]]
                < lex.merges[pairs[b]] || (lex.merges[pairs[a]] == lex.merges[pairs[b]] && a <= b),
    ensures
        lex.step(tokens) == if lex.ids.contains_key(pairs[a].0 + pairs[a].1) {
            Some(
                tokens.subrange(0, a) + seq![lex.ids[pairs[a].0 + pairs[a].1]] + tokens.subrange(
                    a + 2,
                    tokens.len() as int,
                ),
            )
        } else {
            None
        },
{
    assert forall|b: int| #[trigger] lex.mergeable(tokens, b) implies lex.priority(tokens, a)
        <= lex.priority(tokens, b) && (b < a ==> lex.priority(tokens, a) < lex.priority(tokens, b)) by {
        assert(pairs[b] == lex.pair(tokens, b));
    }
    assert(pairs[a] == lex.pair(tokens, a));
    assert(lex.best(tokens, a));
    let i = choose|i: int| lex.best(tokens, i);
    lemma_best_unique(lex, tokens, a, i);
    if lex.ids.contains_key(pairs[a].0 + pairs[a].1) {
        assert(lex.merged(tokens, a) =~= tokens.subrange(0, a) + seq![
            lex.ids[pairs[a].0 + pairs[a].1],
        ] + tokens.subrange(a + 2, tokens.len() as int));
    }
}

/// Where no neighbours may be merged, none are.
pub proof fn law_no_merge(lex: Lexicon, tokens: Seq<u32>, pairs: Seq<(Seq<char>, Seq<char>)>)
    requires
        tokens.len() > 0,
        pairs == Seq::new(
            (tokens.len() - 1) as nat,
            |b: int| (lex.vocab[tokens[b] as int], lex.vocab[tokens[b + 1] as int]),
        ),
        forall|b: int| 0 <= b < pairs.len() ==> !lex.merges.contains_key(#[trigger] pairs[b]),
    ensures
        lex.step(tokens) is None,
{
    if exists|i: int| lex.best(tokens, i) {
        let i = choose|i: int| lex.best(tokens, i);
        assert(lex.mergeable(tokens, i));
        assert(pairs[i] == lex.pair(tokens, i));
    }
}

/// Merging goes on from what a merge gives, and ends where there is none.
pub proof fn law_merging_goes_on(lex: Lexicon, tokens: Seq<u32>)
    ensures
        match lex.step(tokens) {
            Some(next) => lex.merge_all(tokens) == lex.merge_all(next),
            None => lex.merge_all(tokens) == tokens,
        },
{
    lemma_step_shorter(lex, tokens);
}

/// The text of a token is its string, with spaces for the character that stands for them.
pub proof fn law_decode_one(lex: Lexicon, token: u32)
    ensures
        token < lex.vocab.len() ==> {
            let s = lex.vocab[token as int];
            &&& lex.decoded(seq![token]).len() == s.len()
            &&& forall|i: int|
                0 <= i < s.len() ==> #[trigger] lex.decoded(seq![token])[i] == if s[i] == '\u{120}' {
                    ' '
                } else {
                    s[i]
                }
        },
        token >= lex.vocab.len() ==> lex.decoded(seq![token]).len() == 0,
{
    lemma_spelled_one(lex, token);
}

/// A text is first taken character by character, each as the token of the character, with a
/// character of its own for spaces, or as token zero where there is none.
pub proof fn law_characters(lex: Lexicon, text: Seq<char>, i: int)
    requires
        0 <= i < text.len(),
    ensures
        lex.plain(text) == lex.merge_all(lex.char_tokens(text)),
        lex.char_tokens(text).len() == text.len(),
        ({
            let c = if text[i] == ' ' {
                '\u{120}'
            } else {
                text[i]
            };
            lex.char_tokens(text)[i] == if lex.ids.contains_key(seq![c]) {
                lex.ids[seq![c]]
            } else {
                0
            }
        }),
{
}

/// Tokens can be decoded piece by piece.
pub proof fn law_decode_streams(lex: Lexicon, a: Seq<u32>, b: Seq<u32>)
    ensures
        lex.decoded(a + b) == lex.decoded(a) + lex.decoded(b),
{
    lemma_spelled_add(lex, a, b);
    assert(lex.decoded(a + b) =~= lex.decoded(a) + lex.decoded(b));
}

/// A tokenizer: the strings of its tokens, the token of each string, the pairs of strings that
/// may be merged, and the special strings, each with its token.
pub struct Tokenizer {
    vocab: Vec<String>,
    token_to_id: StringHashMap<u32>,
    merges: MergeTable,
    specials: Vec<(Vec<char>, u32)>,
}

/// The strings of a list.
pub open spec fn texts(strings: Seq<String>) -> Seq<Seq<char>> {
    strings.map_values(|s: String| s@)
}

impl View for Tokenizer {
    type V = Lexicon;

    closed spec fn view(&self) -> Lexicon {
        Lexicon {
            vocab: texts(self.vocab@),
            ids: self.token_to_id@,
            merges: self.merges@,
            specials: Set::new(|s: Seq<char>| listed(self.specials@, s)),
        }
    }
}

/// A string is in a list of strings and tokens.
spec fn listed(entries: Seq<(Vec<char>, u32)>, s: Seq<char>) -> bool {
    exists|i: int| 0 <= i < entries.len() && #[trigger] entries[i].0@ == s
}

/// The number of each string in a list of strings and numbers, the last one of each string.
pub open spec fn numbered(entries: Seq<(String, u32)>) -> Map<Seq<char>, u32>
    decreases entries.len(),
{
    if entries.len() == 0 {
        Map::empty()
    } else {
        numbered(entries.drop_last()).insert(entries.last().0@, entries.last().1)
    }
}

/// The number of each pair in a list of pairs and numbers, the last one of each pair.
pub open spec fn pair_numbered(entries: Seq<(String, String, u32)>) -> Map<
    (Seq<char>, Seq<char>),
    u32,
>
    decreases entries.len(),
{
    if entries.len() == 0 {
        Map::empty()
    } else {
        let (left, right, n) = entries.last();
        pair_numbered(entries.drop_last()).insert((left@, right@), n)
    }
}

/// The strings in a list of values.
pub open spec fn strings_in(items: Seq<Value>) -> Seq<Seq<char>>
    decreases items.len(),
{
    if items.len() == 0 {
        Seq::empty()
    } else {
        match items.last() {
            Value::Str(s) => strings_in(items.drop_last()).push(s),
            _ => strings_in(items.drop_last()),
        }
    }
}

/// The place of each string in a list of values, the last one of each string.
pub open spec fn places_in(items: Seq<Value>) -> Map<Seq<char>, u32>
    decreases items.len(),
{
    if items.len() == 0 {
        Map::empty()
    } else {
        match items.last() {
            Value::Str(s) => places_in(items.drop_last()).insert(s, (items.len() - 1) as u32),
            _ => places_in(items.drop_last()),
        }
    }
}

/// The type of control tokens, such as the one that ends a turn.
pub const CONTROL: i32 = 3;

/// The type of tokens that whoever made the vocabulary added to it.
pub const USER_DEFINED: i32 = 4;

/// The type of a token whose string is special.
pub open spec fn special_type(v: Value) -> bool {
    v == Value::I32(CONTROL) || v == Value::I32(USER_DEFINED)
}

/// Token `i` is the string `s`, and of a special type.
pub open spec fn special_token(
    tokens: Seq<Value>,
    types: Seq<Value>,
    i: int,
    s: Seq<char>,
) -> bool {
    &&& 0 <= i < tokens.len()
    &&& i < types.len()
    &&& tokens[i] == Value::Str(s)
    &&& special_type(types[i])
}

/// The strings of the tokens of a special type, in a list of tokens and the list of their types.
pub open spec fn specials_in(tokens: Seq<Value>, types: Seq<Value>) -> Set<Seq<char>> {
    Set::new(|s: Seq<char>| exists|i: int| special_token(tokens, types, i, s))
}

/// Each string in a list of values has a place.
proof fn lemma_placed(items: Seq<Value>, i: int, s: Seq<char>)
    requires
        0 <= i < items.len(),
        items[i] == Value::Str(s),
    ensures
        places_in(items).contains_key(s),
    decreases items.len(),
{
    if i < items.len() - 1 {
        lemma_placed(items.drop_last(), i, s);
    }
}

/// In a list of strings, each string has a place that holds it.
proof fn lemma_places(items: Seq<Value>, s: Seq<char>)
    requires
        items.len() <= 0x1_0000_0000,
        forall|i: int| 0 <= i < items.len() ==> #[trigger] items[i] is Str,
        places_in(items).contains_key(s),
    ensures
        places_in(items)[s] < items.len(),
        items[places_in(items)[s] as int] == Value::Str(s),
    decreases items.len(),
{
    if items.last() != Value::Str(s) {
        lemma_places(items.drop_last(), s);
    }
}

/// A list of strings holds each of them at its place.
proof fn lemma_strings(items: Seq<Value>)
    requires
        forall|i: int| 0 <= i < items.len() ==> #[trigger] items[i] is Str,
    ensures
        strings_in(items).len() == items.len(),
        forall|i: int|
            0 <= i < items.len() ==> items[i] == Value::Str(#[trigger] strings_in(items)[i]),
    decreases items.len(),
{
    if items.len() > 0 {
        lemma_strings(items.drop_last());
        assert forall|i: int| 0 <= i < items.len() implies items[i] == Value::Str(
            #[trigger] strings_in(items)[i],
        ) by {
            assert(items.last() is Str);
            if i < items.len() - 1 {
                assert(items.drop_last()[i] == Value::Str(strings_in(items.drop_last())[i]));
            }
        }
    }
}

/// In the vocabulary of a file whose tokens are all strings, and no more than there are numbers
/// for them, the token of each string has this string.
pub proof fn law_vocabulary_consistent(lex: Lexicon, tokens: Seq<Value>)
    requires
        tokens.len() <= 0x1_0000_0000,
        forall|i: int| 0 <= i < tokens.len() ==> #[trigger] tokens[i] is Str,
        lex.vocab == strings_in(tokens),
        lex.ids == places_in(tokens),
    ensures
        lex.consistent(),
{
    lemma_strings(tokens);
    assert forall|s: Seq<char>| #[trigger] lex.ids.contains_key(s) implies lex.ids[s]
        < lex.vocab.len() && lex.vocab[lex.ids[s] as int] == s by {
        lemma_places(tokens, s);
        assert(tokens[lex.ids[s] as int] == Value::Str(strings_in(tokens)[lex.ids[s] as int]));
    }
}

/// The string of a control or user-defined token is special, where it is not empty.
pub proof fn law_special_tokens(lex: Lexicon, tokens: Seq<Value>, types: Seq<Value>, i: int)
    requires
        0 <= i < tokens.len(),
        i < types.len(),
        types[i] == Value::I32(3) || types[i] == Value::I32(4),
        tokens[i] matches Value::Str(s) && s.len() > 0,
        lex.ids == places_in(tokens),
        lex.specials == specials_in(tokens, types),
    ensures
        lex.is_special(tokens[i]->Str_0),
{
    let s = tokens[i]->Str_0;
    assert(special_token(tokens, types, i, s));
    lemma_placed(tokens, i, s);
}

/// No string is special but that of a control or user-defined token, and the empty one is not.
pub proof fn law_only_special_tokens(
    lex: Lexicon,
    tokens: Seq<Value>,
    types: Seq<Value>,
    s: Seq<char>,
)
    requires
        lex.specials == specials_in(tokens, types),
        lex.is_special(s),
    ensures
        s.len() > 0,
        exists|i: int|
            {
                &&& 0 <= i < tokens.len()
                &&& i < types.len()
                &&& #[trigger] tokens[i] == Value::Str(s)
                &&& types[i] == Value::I32(3) || types[i] == Value::I32(4)
            },
{
    let i = choose|i: int| special_token(tokens, types, i, s);
    assert(tokens[i] == Value::Str(s));
}

/// The token of a string is the last place at which the string stands in the list of tokens.
pub proof fn law_places(items: Seq<Value>, s: Seq<char>, i: int)
    requires
        0 <= i < items.len() <= 0x1_0000_0000,
        items[i] == Value::Str(s),
        forall|j: int| i < j < items.len() ==> #[trigger] items[j] != Value::Str(s),
    ensures
        places_in(items).contains_key(s),
        places_in(items)[s] == i,
    decreases items.len(),
{
    if i < items.len() - 1 {
        assert(items[items.len() - 1] != Value::Str(s));
        law_places(items.drop_last(), s, i);
    }
}

/// The first space is at `i`.
pub open spec fn first_space(s: Seq<char>, i: int) -> bool {
    &&& 0 <= i < s.len()
    &&& s[i] == ' '
    &&& forall|j: int| 0 <= j < i ==> #[trigger] s[j] != ' '
}

/// What is in front of the first space and what is behind it.
pub open spec fn split(s: Seq<char>) -> Option<(Seq<char>, Seq<char>)> {
    if exists|i: int| first_space(s, i) {
        let i = choose|i: int| first_space(s, i);
        Some((s.take(i), s.skip(i + 1)))
    } else {
        None
    }
}

/// The place of each pair in a list of values: of the strings with a space, what is in front of
/// the first one and what is behind it.
pub open spec fn pairs_in(items: Seq<Value>) -> Map<(Seq<char>, Seq<char>), u32>
    decreases items.len(),
{
    if items.len() == 0 {
        Map::empty()
    } else {
        let front = pairs_in(items.drop_last());
        match items.last() {
            Value::Str(s) => match split(s) {
                Some(pair) => front.insert(pair, (items.len() - 1) as u32),
                None => front,
            },
            _ => front,
        }
    }
}

/// A string is split at its first space, if it has one.
pub proof fn law_split(s: Seq<char>, left: Seq<char>, right: Seq<char>)
    requires
        forall|i: int| 0 <= i < left.len() ==> #[trigger] left[i] != ' ',
    ensures
        s == left.push(' ') + right ==> split(s) == Some((left, right)),
        s == left ==> split(s) is None,
{
    if s == left.push(' ') + right {
        let n = left.len() as int;
        assert(s[n] == ' ');
        assert forall|j: int| 0 <= j < n implies #[trigger] s[j] != ' ' by {
            assert(s[j] == left[j]);
        }
        assert(first_space(s, n));
        let i = choose|i: int| first_space(s, i);
        if i < n {
            assert(s[i] != ' ');
        } else if n < i {
            assert(s[n] != ' ');
        }
        assert(s.take(n) =~= left && s.skip(n + 1) =~= right);
    }
}

/// A pair in a list of merges has the place at which it is listed last, where its parts are the
/// strings in front of the first space and behind it.
pub proof fn law_merge_place(items: Seq<Value>, i: int, left: Seq<char>, right: Seq<char>)
    requires
        0 <= i < items.len() <= 0x1_0000_0000,
        forall|k: int| 0 <= k < left.len() ==> #[trigger] left[k] != ' ',
        items[i] == Value::Str(left.push(' ') + right),
        forall|k: int| i < k < items.len() ==> #[trigger] items[k] != items[i],
    ensures
        pairs_in(items).contains_key((left, right)),
        pairs_in(items)[(left, right)] == i,
    decreases items.len(),
{
    let s = left.push(' ') + right;
    law_split(s, left, right);
    let last = items.len() - 1;
    if i < last {
        let front = items.drop_last();
        assert(items[last] != items[i]);
        assert forall|k: int| i < k < front.len() implies #[trigger] front[k] != front[i] by {
            assert(items[k] != items[i]);
        }
        law_merge_place(front, i, left, right);
        if let Value::Str(t) = items.last() {
            if split(t) == Some((left, right)) {
                let k = choose|k: int| first_space(t, k);
                assert(t =~= t.take(k).push(' ') + t.skip(k + 1));
            }
        }
    }
}

/// Of two merges of a file, each listed once, the one that is listed first has the lower number,
/// and so goes first wherever both can be done.
pub proof fn law_merges_in_order(
    items: Seq<Value>,
    i: int,
    j: int,
    left1: Seq<char>,
    right1: Seq<char>,
    left2: Seq<char>,
    right2: Seq<char>,
)
    requires
        0 <= i < j < items.len() <= 0x1_0000_0000,
        forall|k: int| 0 <= k < left1.len() ==> #[trigger] left1[k] != ' ',
        forall|k: int| 0 <= k < left2.len() ==> #[trigger] left2[k] != ' ',
        items[i] == Value::Str(left1.push(' ') + right1),
        items[j] == Value::Str(left2.push(' ') + right2),
        forall|k: int| 0 <= k < items.len() && k != i ==> #[trigger] items[k] != items[i],
        forall|k: int| 0 <= k < items.len() && k != j ==> #[trigger] items[k] != items[j],
    ensures
        pairs_in(items).contains_key((left1, right1)),
        pairs_in(items).contains_key((left2, right2)),
        pairs_in(items)[(left1, right1)] < pairs_in(items)[(left2, right2)],
{
    law_merge_place(items, i, left1, right1);
    law_merge_place(items, j, left2, right2);
}

/// With the merges of a file, the merge that is listed first is done wherever its strings stand
/// side by side, at the first such place.
pub proof fn law_first_merge_goes_first(
    lex: Lexicon,
    items: Seq<Value>,
    left: Seq<char>,
    right: Seq<char>,
    tokens: Seq<u32>,
    pairs: Seq<(Seq<char>, Seq<char>)>,
    a: int,
)
    requires
        0 < items.len() <= 0x1_0000_0000,
        lex.merges == pairs_in(items),
        forall|k: int| 0 <= k < left.len() ==> #[trigger] left[k] != ' ',
        items[0] == Value::Str(left.push(' ') + right),
        forall|k: int| 0 < k < items.len() ==> #[trigger] items[k] != items[0],
        0 <= a < tokens.len() - 1,
        pairs == Seq::new(
            (tokens.len() - 1) as nat,
            |b: int| (lex.vocab[tokens[b] as int], lex.vocab[tokens[b + 1] as int]),
        ),
        pairs[a] == (left, right),
        forall|b: int| 0 <= b < a ==> #[trigger] pairs[b] != (left, right),
        lex.ids.contains_key(left + right),
    ensures
        lex.step(tokens) == Some(
            tokens.subrange(0, a) + seq![lex.ids[left + right]] + tokens.subrange(
                a + 2,
                tokens.len() as int,
            ),
        ),
{
    law_merge_place(items, 0, left, right);
    assert forall|b: int| 0 <= b < pairs.len() && lex.merges.contains_key(#[trigger] pairs[b]) implies lex.merges[pairs[a]]
        < lex.merges[pairs[b]] || (lex.merges[pairs[a]] == lex.merges[pairs[b]] && a <= b) by {
        if pairs_in(items)[pairs[b]] == 0 {
            lemma_place_zero(items, pairs[b], left, right);
        }
    }
    law_best_merge(lex, tokens, pairs, a);
}

/// Only the pair that is listed first has the number zero.
proof fn lemma_place_zero(
    items: Seq<Value>,
    pair: (Seq<char>, Seq<char>),
    left: Seq<char>,
    right: Seq<char>,
)
    requires
        0 < items.len() <= 0x1_0000_0000,
        forall|k: int| 0 <= k < left.len() ==> #[trigger] left[k] != ' ',
        items[0] == Value::Str(left.push(' ') + right),
        pairs_in(items).contains_key(pair),
        pairs_in(items)[pair] == 0,
    ensures
        pair == (left, right),
    decreases items.len(),
{
    law_split(left.push(' ') + right, left, right);
    let front = items.drop_last();
    if items.len() > 1 {
        let own = match items.last() {
            Value::Str(s) => split(s) == Some(pair),
            _ => false,
        };
        if !own {
            lemma_place_zero(front, pair, left, right);
        }
    } else {
        assert(pairs_in(front) =~= Map::<(Seq<char>, Seq<char>), u32>::empty());
    }
}

/// The array under a key, or nothing.
pub open spec fn array_in(metadata: Map<Seq<char>, Value>, key: Seq<char>) -> Seq<Value> {
    if metadata.contains_key(key) {
        match metadata[key] {
            Value::Array(items) => items,
            _ => Seq::empty(),
        }
    } else {
        Seq::empty()
    }
}

/// Splits a string at the first space.
fn split_of(s: &str) -> (r: Option<(String, String)>)
    ensures
        match r {
            Some((left, right)) => split(s@) == Some((left@, right@)),
            None => split(s@) is None,
        },
{
    let mut left = String::new();
    let mut right = String::new();
    let mut found = false;
    let ghost mut at: int = 0;
    for c in it: s.chars()
        invariant
            it.seq() == s@,
            !found ==> left@ == s@.take(it.index() as int) && right@ == Seq::<char>::empty()
                && forall|j: int| 0 <= j < it.index() ==> #[trigger] s@[j] != ' ',
            found ==> first_space(s@, at) && at < it.index() && left@ == s@.take(at) && right@
                == s@.subrange(at + 1, it.index() as int),
    {
        if found {
            right.push(c);
            assert(right@ =~= s@.subrange(at + 1, it.index() + 1));
        } else if c == ' ' {
            found = true;
            proof {
                at = it.index() as int;
            }
            assert(right@ =~= s@.subrange(at + 1, at + 1));
        } else {
            left.push(c);
            assert(left@ =~= s@.take(it.index() + 1));
        }
    }
    if found {
        proof {
            let i = choose|i: int| first_space(s@, i);
            if i < at {
                assert(s@[i] != ' ');
            } else if at < i {
                assert(s@[at] != ' ');
            }
            assert(s@.subrange(at + 1, s@.len() as int) =~= s@.skip(at + 1));
        }
        Some((left, right))
    } else {
        proof {
            if exists|i: int| first_space(s@, i) {
                let i = choose|i: int| first_space(s@, i);
                assert(s@[i] != ' ');
            }
        }
        None
    }
}

/// The array under a key, or nothing.
fn array_of<'a>(gguf: &'a GGUFFile, key: &str) -> (r: Option<&'a Vec<MetadataValue>>)
    ensures
        match r {
            Some(items) => array_in(gguf@.metadata, key@) == gguf::values_of(items@),
            None => array_in(gguf@.metadata, key@) == Seq::<Value>::empty(),
        },
{
    match gguf.metadata.get(key) {
        Some(v) => match v {
            MetadataValue::Array(items) => {
                assert(array_in(gguf@.metadata, key@) =~= gguf::values_of(items@));
                Some(items)
            },
            _ => None,
        },
        None => None,
    }
}

/// The characters of a text.
fn chars_of(text: &str) -> (r: Vec<char>)
    ensures
        r@ == text@,
{
    let mut r: Vec<char> = Vec::new();
    for c in it: text.chars()
        invariant
            it.seq() == text@,
            r@ == text@.take(it.index() as int),
    {
        r.push(c);
        assert(r@ =~= text@.take(it.index() + 1));
    }
    assert(text@.take(text@.len() as int) =~= text@);
    r
}

/// Whether a text has the given string at `i`.
fn stands_at(s: &Vec<char>, text: &[char], i: usize) -> (r: bool)
    requires
        i <= text@.len(),
    ensures
        r == (i + s@.len() <= text@.len() && text@.subrange(i as int, i + s@.len()) == s@),
{
    let len = text.len();
    if s.len() > len - i {
        return false;
    }
    let mut k: usize = 0;
    while k < s.len()
        invariant
            k <= s@.len(),
            i + s@.len() <= len == text@.len(),
            forall|j: int| 0 <= j < k ==> text@[i + j] == #[trigger] s@[j],
        decreases s@.len() - k,
    {
        if text[i + k] != s[k] {
            assert(text@.subrange(i as int, i + s@.len())[k as int] == text@[i + k]);
            return false;
        }
        k += 1;
    }
    assert(text@.subrange(i as int, i + s@.len()) =~= s@);
    true
}

/// Whether a token type is special.
fn is_special_type(v: &MetadataValue) -> (r: bool)
    ensures
        r == special_type(v@),
{
    match v {
        MetadataValue::I32(t) => *t == CONTROL || *t == USER_DEFINED,
        _ => false,
    }
}

impl Tokenizer {
    /// The table of merges is in order, and each special string is with its token.
    pub closed spec fn wf(&self) -> bool {
        &&& self.merges.wf()
        &&& forall|i: int|
            0 <= i < self.specials@.len() ==> {
                &&& self.token_to_id@.contains_key((#[trigger] self.specials@[i]).0@)
                &&& self.token_to_id@[self.specials@[i].0@] == self.specials@[i].1
            }
    }

    /// A tokenizer of the given strings of tokens, tokens of strings, and priorities of pairs of
    /// strings; of several entries for the same the last one counts. No string is special.
    pub fn from_parts(
        vocab: Vec<String>,
        ids: Vec<(String, u32)>,
        merges: Vec<(String, String, u32)>,
    ) -> (r: Self)
        ensures
            r.wf(),
            r@ == (Lexicon {
                vocab: texts(vocab@),
                ids: numbered(ids@),
                merges: pair_numbered(merges@),
                specials: Set::empty(),
            }),
    {
        let mut token_to_id: StringHashMap<u32> = StringHashMap::new();
        let mut i: usize = 0;
        while i < ids.len()
            invariant
                i <= ids@.len(),
                token_to_id@ == numbered(ids@.take(i as int)),
            decreases ids@.len() - i,
        {
            token_to_id.insert(ids[i].0.clone(), ids[i].1);
            assert(ids@.take(i + 1).drop_last() =~= ids@.take(i as int));
            i += 1;
        }
        assert(ids@.take(i as int) =~= ids@);
        let mut table = MergeTable::new();
        let mut k: usize = 0;
        while k < merges.len()
            invariant
                k <= merges@.len(),
                table.wf(),
                table@ == pair_numbered(merges@.take(k as int)),
            decreases merges@.len() - k,
        {
            table.insert(merges[k].0.clone(), merges[k].1.clone(), merges[k].2);
            assert(merges@.take(k + 1).drop_last() =~= merges@.take(k as int));
            k += 1;
        }
        assert(merges@.take(k as int) =~= merges@);
        let specials: Vec<(Vec<char>, u32)> = Vec::new();
        let r = Tokenizer { vocab, token_to_id, merges: table, specials };
        assert(r@.specials =~= Set::empty());
        r
    }

    /// The special strings among the tokens of a file, each with its token.
    fn specials_of(gguf: &GGUFFile, token_to_id: &StringHashMap<u32>) -> (r: Vec<
        (Vec<char>, u32),
    >)
        requires
            token_to_id@ == places_in(array_in(gguf@.metadata, "tokenizer.ggml.tokens"@)),
        ensures
            forall|i: int|
                0 <= i < r@.len() ==> {
                    &&& token_to_id@.contains_key((#[trigger] r@[i]).0@)
                    &&& token_to_id@[r@[i].0@] == r@[i].1
                },
            forall|s: Seq<char>|
                listed(r@, s) <==> #[trigger] specials_in(
                    array_in(gguf@.metadata, "tokenizer.ggml.tokens"@),
                    array_in(gguf@.metadata, "tokenizer.ggml.token_type"@),
                ).contains(s),
    {
        let ghost tokens = array_in(gguf@.metadata, "tokenizer.ggml.tokens"@);
        let ghost types = array_in(gguf@.metadata, "tokenizer.ggml.token_type"@);
        let mut r: Vec<(Vec<char>, u32)> = Vec::new();
        let items = match array_of(gguf, "tokenizer.ggml.tokens") {
            Some(items) => items,
            None => return r,
        };
        let kinds = match array_of(gguf, "tokenizer.ggml.token_type") {
            Some(kinds) => kinds,
            None => return r,
        };
        let mut i: usize = 0;
        while i < items.len() && i < kinds.len()
            invariant
                i <= items@.len(),
                i <= kinds@.len(),
                tokens == gguf::values_of(items@),
                types == gguf::values_of(kinds@),
                token_to_id@ == places_in(tokens),
                forall|k: int|
                    0 <= k < r@.len() ==> {
                        &&& token_to_id@.contains_key((#[trigger] r@[k]).0@)
                        &&& token_to_id@[r@[k].0@] == r@[k].1
                    },
                forall|k: int|
                    0 <= k < r@.len() ==> specials_in(tokens, types).contains(
                        (#[trigger] r@[k]).0@,
                    ),
                forall|j: int, s: Seq<char>|
                    j < i && #[trigger] special_token(tokens, types, j, s) ==> listed(r@, s),
            decreases items@.len() - i,
        {
            assert(tokens[i as int] == items@[i as int]@);
            assert(types[i as int] == kinds@[i as int]@);
            let ghost before = r@;
            let special = is_special_type(&kinds[i]);
            if let MetadataValue::Str(token) = &items[i] {
                if special {
                    proof {
                        lemma_placed(tokens, i as int, token@);
                    }
                    if let Some(id) = token_to_id.get(token.as_str()) {
                        let chars = chars_of(token.as_str());
                        r.push((chars, *id));
                        assert(special_token(tokens, types, i as int, r@[before.len() as int].0@));
                        assert forall|j: int, s: Seq<char>|
                            j < i + 1 && #[trigger] special_token(
                                tokens,
                                types,
                                j,
                                s,
                            ) implies listed(r@, s) by {
                            if j < i {
                                let k = choose|k: int|
                                    0 <= k < before.len() && #[trigger] before[k].0@ == s;
                                assert(r@[k].0@ == s);
                            } else {
                                assert(r@[before.len() as int].0@ == s);
                            }
                        }
                    }
                }
            }
            i += 1;
        }
        r
    }

    /// The tokenizer in the metadata of a file: the array of the strings of the tokens, the array
    /// of merges, each of which is a left and a right string with a space in between, and the
    /// array of the types of the tokens, which tells the special strings.
    pub fn from_gguf(gguf: &GGUFFile) -> (r: Self)
        ensures
            r.wf(),
            r@ == ({
                let tokens = array_in(gguf@.metadata, "tokenizer.ggml.tokens"@);
                Lexicon {
                    vocab: strings_in(tokens),
                    ids: places_in(tokens),
                    merges: pairs_in(array_in(gguf@.metadata, "tokenizer.ggml.merges"@)),
                    specials: specials_in(
                        tokens,
                        array_in(gguf@.metadata, "tokenizer.ggml.token_type"@),
                    ),
                }
            }),
    {
        let mut vocab: Vec<String> = Vec::new();
        let mut token_to_id: StringHashMap<u32> = StringHashMap::new();
        let mut merges = MergeTable::new();
        assert(texts(vocab@) =~= strings_in(Seq::empty()));
        if let Some(items) = array_of(gguf, "tokenizer.ggml.tokens") {
            let ghost all = gguf::values_of(items@);
            let mut i: usize = 0;
            assert(all.take(0) =~= Seq::<Value>::empty());
            while i < items.len()
                invariant
                    i <= items@.len(),
                    all == gguf::values_of(items@),
                    texts(vocab@) == strings_in(all.take(i as int)),
                    token_to_id@ == places_in(all.take(i as int)),
                decreases items@.len() - i,
            {
                assert(all.take(i + 1).drop_last() =~= all.take(i as int));
                assert(all.take(i + 1).last() == items@[i as int]@);
                let ghost before = vocab@;
                if let MetadataValue::Str(token) = &items[i] {
                    vocab.push(token.clone());
                    token_to_id.insert(token.clone(), #[verifier::truncate] (i as u32));
                    assert(texts(vocab@) =~= texts(before).push(token@));
                }
                i += 1;
            }
            assert(all.take(i as int) =~= all);
        }
        if let Some(items) = array_of(gguf, "tokenizer.ggml.merges") {
            let ghost all = gguf::values_of(items@);
            let mut i: usize = 0;
            assert(all.take(0) =~= Seq::<Value>::empty());
            while i < items.len()
                invariant
                    i <= items@.len(),
                    all == gguf::values_of(items@),
                    merges.wf(),
                    merges@ == pairs_in(all.take(i as int)),
                decreases items@.len() - i,
            {
                assert(all.take(i + 1).drop_last() =~= all.take(i as int));
                assert(all.take(i + 1).last() == items@[i as int]@);
                if let MetadataValue::Str(merge) = &items[i] {
                    if let Some((left, right)) = split_of(merge.as_str()) {
                        merges.insert(left, right, #[verifier::truncate] (i as u32));
                    }
                }
                i += 1;
            }
            assert(all.take(i as int) =~= all);
        }
        let specials = Self::specials_of(gguf, &token_to_id);
        let r = Tokenizer { vocab, token_to_id, merges, specials };
        assert(r@.specials =~= specials_in(
            array_in(gguf@.metadata, "tokenizer.ggml.tokens"@),
            array_in(gguf@.metadata, "tokenizer.ggml.token_type"@),
        ));
        r
    }

    /// The tokens of the characters of a text.
    fn char_tokens_of(&self, text: &[char]) -> (r: Vec<u32>)
        ensures
            r@ == self@.char_tokens(text@),
    {
        let mut r: Vec<u32> = Vec::new();
        let mut i: usize = 0;
        while i < text.len()
            invariant
                i <= text@.len(),
                r@ == self@.char_tokens(text@.take(i as int)),
            decreases text@.len() - i,
        {
            let c = text[i];
            let glyph = if c == ' ' {
                SPACE_GLYPH
            } else {
                c
            };
            let mut s = String::new();
            s.push(glyph);
            assert(s@ =~= seq![glyph]);
            let id = match self.token_to_id.get(s.as_str()) {
                Some(id) => *id,
                None => 0,
            };
            r.push(id);
            assert(r@ =~= self@.char_tokens(text@.take(i + 1)));
            i += 1;
        }
        assert(text@.take(i as int) =~= text@);
        r
    }

    /// The length of the longest special string at `i`, and its token.
    fn special_of(&self, text: &[char], i: usize) -> (r: Option<(usize, u32)>)
        requires
            self.wf(),
            i <= text@.len(),
        ensures
            match r {
                Some((n, id)) => {
                    &&& self@.special_at(text@, i as int, n as int)
                    &&& id == self@.ids[text@.subrange(i as int, i + n)]
                    &&& forall|k: int| #[trigger]
                        self@.special_at(text@, i as int, k) ==> k <= n
                },
                None => forall|k: int| !self@.special_at(text@, i as int, k),
            },
    {
        let mut found: Option<(usize, u32)> = None;
        let mut j: usize = 0;
        while j < self.specials.len()
            invariant
                self.wf(),
                i <= text@.len(),
                j <= self.specials@.len(),
                match found {
                    Some((n, id)) => {
                        &&& self@.special_at(text@, i as int, n as int)
                        &&& id == self@.ids[text@.subrange(i as int, i + n)]
                    },
                    None => true,
                },
                forall|m: int, k: int|
                    0 <= m < j && #[trigger] self@.special_at(text@, i as int, k) && (
                    #[trigger] self.specials@[m]).0@ == text@.subrange(i as int, i + k) ==> (
                    found matches Some((n, _)) && k <= n),
            decreases self.specials@.len() - j,
        {
            let s = &self.specials[j].0;
            let longer = match found {
                Some((n, _)) => s.len() > n,
                None => s.len() > 0,
            };
            if longer && stands_at(s, text, i) {
                assert(self.specials@[j as int].0@ == s@);
                assert(listed(self.specials@, s@));
                assert(self@.special_at(text@, i as int, s@.len() as int));
                found = Some((s.len(), self.specials[j].1));
            }
            j += 1;
        }
        proof {
            assert forall|k: int| #[trigger]
                self@.special_at(text@, i as int, k) implies (found matches Some((n, _)) && k
                <= n) by {
                assert(listed(self.specials@, text@.subrange(i as int, i + k)));
                let m = choose|m: int|
                    0 <= m < self.specials@.len() && #[trigger] self.specials@[m].0@
                        == text@.subrange(i as int, i + k);
                assert(self.specials@[m].0@ == text@.subrange(i as int, i + k));
            }
        }
        found
    }

    /// Where the first special string of a text stands, its length and its token.
    fn cut_of(&self, text: &[char]) -> (r: Option<(usize, usize, u32)>)
        requires
            self.wf(),
        ensures
            match r {
                Some((i, n, id)) => {
                    &&& self@.cut(text@) == Some((i as int, n as int))
                    &&& self@.special_at(text@, i as int, n as int)
                    &&& id == self@.ids[text@.subrange(i as int, i + n)]
                },
                None => self@.cut(text@) is None,
            },
    {
        let mut i: usize = 0;
        while i < text.len()
            invariant
                self.wf(),
                i <= text@.len(),
                forall|j: int, k: int| j < i ==> !#[trigger] self@.special_at(text@, j, k),
            decreases text@.len() - i,
        {
            if let Some((n, id)) = self.special_of(text, i) {
                proof {
                    assert(self@.first_special(text@, i as int, n as int));
                    lemma_cut(self@, text@, i as int, n as int);
                }
                return Some((i, n, id));
            }
            i += 1;
        }
        proof {
            if let Some((j, k)) = self@.cut(text@) {
                assert(self@.special_at(text@, j, k));
            }
        }
        None
    }

    /// Whether all tokens have a string.
    fn all_known(&self, tokens: &Vec<u32>) -> (r: bool)
        ensures
            r == forall|i: int|
                0 <= i < tokens@.len() ==> #[trigger] tokens@[i] < self@.vocab.len(),
    {
        let mut i: usize = 0;
        while i < tokens.len()
            invariant
                i <= tokens@.len(),
                forall|j: int| 0 <= j < i ==> #[trigger] tokens@[j] < self@.vocab.len(),
            decreases tokens@.len() - i,
        {
            if tokens[i] as usize >= self.vocab.len() {
                assert(!(tokens@[i as int] < self@.vocab.len()));
                return false;
            }
            i += 1;
        }
        true
    }

    /// The first pair of the lowest priority.
    fn best_of(&self, tokens: &Vec<u32>) -> (r: Option<usize>)
        requires
            self.wf(),
            forall|i: int| 0 <= i < tokens@.len() ==> #[trigger] tokens@[i] < self@.vocab.len(),
        ensures
            match r {
                Some(i) => self@.best(tokens@, i as int),
                None => !exists|i: int| self@.best(tokens@, i),
            },
    {
        let mut found: Option<(usize, u32)> = None;
        let mut i: usize = 0;
        while tokens.len() - i > 1
            invariant
                self.wf(),
                forall|j: int|
                    0 <= j < tokens@.len() ==> #[trigger] tokens@[j] < self@.vocab.len(),
                i <= tokens@.len(),
                tokens@.len() >= 1 ==> i + 1 <= tokens@.len(),
                match found {
                    Some((b, p)) => {
                        &&& b < i
                        &&& self@.mergeable(tokens@, b as int)
                        &&& p == self@.priority(tokens@, b as int)
                        &&& forall|j: int|
                            j < i && #[trigger] self@.mergeable(tokens@, j) ==> {
                                &&& p <= self@.priority(tokens@, j)
                                &&& j < b ==> p < self@.priority(tokens@, j)
                            }
                    },
                    None => forall|j: int| j < i ==> !#[trigger] self@.mergeable(tokens@, j),
                },
            decreases tokens@.len() - i,
        {
            assert(tokens@[i as int] < self@.vocab.len() && tokens@[i + 1] < self@.vocab.len());
            let left = self.vocab[tokens[i] as usize].as_str();
            let right = self.vocab[tokens[i + 1] as usize].as_str();
            assert((left@, right@) == self@.pair(tokens@, i as int));
            if let Some(p) = self.merges.get(left, right) {
                assert(self@.mergeable(tokens@, i as int));
                let better = match found {
                    Some((_, q)) => p < q,
                    None => true,
                };
                if better {
                    found = Some((i, p));
                }
            } else {
                assert(!self@.mergeable(tokens@, i as int));
            }
            i += 1;
        }
        match found {
            Some((b, _)) => {
                assert(self@.best(tokens@, b as int));
                Some(b)
            },
            None => {
                assert forall|j: int| !self@.best(tokens@, j) by {
                    assert(!self@.mergeable(tokens@, j));
                }
                None
            },
        }
    }

    /// The tokens after all merges, where these can be done.
    fn merge_all_of(&self, start: Vec<u32>) -> (r: Option<Vec<u32>>)
        requires
            self.wf(),
        ensures
            match r {
                Some(tokens) => self@.merges_safely(start@) && tokens@ == self@.merge_all(start@),
                None => !self@.merges_safely(start@),
            },
    {
        let ghost all = start@;
        let mut tokens = start;
        while tokens.len() >= 2
            invariant
                self.wf(),
                all == start@,
                self@.merges_safely(tokens@) == self@.merges_safely(all),
                self@.merge_all(tokens@) == self@.merge_all(all),
            ensures
                self@.merges_safely(all),
                tokens@ == self@.merge_all(all),
            decreases tokens@.len(),
        {
            if !self.all_known(&tokens) {
                return None;
            }
            proof {
                lemma_step_shorter(self@, tokens@);
            }
            let i = match self.best_of(&tokens) {
                Some(i) => i,
                None => break,
            };
            proof {
                let k = choose|k: int| self@.best(tokens@, k);
                lemma_best_unique(self@, tokens@, i as int, k);
                assert(self@.mergeable(tokens@, i as int));
            }
            assert(tokens@[i as int] < self@.vocab.len() && tokens@[i + 1] < self@.vocab.len());
            let mut joined = self.vocab[tokens[i] as usize].clone();
            joined.append(self.vocab[tokens[i + 1] as usize].as_str());
            assert(joined@ == self@.joined(tokens@, i as int));
            match self.token_to_id.get(joined.as_str()) {
                None => break,
                Some(id) => {
                    let ghost before = tokens@;
                    let id = *id;
                    tokens[i] = id;
                    let _ = tokens.remove(i + 1);
                    assert(tokens@ =~= self@.merged(before, i as int));
                },
            }
        }
        Some(tokens)
    }

    /// The tokens of a text, where it can be encoded.
    pub fn try_encode(&self, text: &str) -> (r: Option<Vec<u32>>)
        requires
            self.wf(),
        ensures
            match r {
                Some(tokens) => self@.encodes(text@) && tokens@ == self@.encoded(text@),
                None => !self@.encodes(text@),
            },
    {
        let chars = chars_of(text);
        let mut done: Vec<u32> = Vec::new();
        let mut from: usize = 0;
        assert(chars@.skip(0) =~= text@);
        loop
            invariant
                self.wf(),
                from <= chars@.len(),
                self@.encodes(chars@.skip(from as int)) == self@.encodes(text@),
                done@ + self@.encoded(chars@.skip(from as int)) == self@.encoded(text@),
            decreases chars@.len() - from,
        {
            let rest = slice_subrange(chars.as_slice(), from, chars.len());
            assert(rest@ =~= chars@.skip(from as int));
            match self.cut_of(rest) {
                Some((i, n, id)) => {
                    let front = slice_subrange(rest, 0, i);
                    assert(front@ =~= rest@.take(i as int));
                    let mut tokens = match self.merge_all_of(self.char_tokens_of(front)) {
                        Some(tokens) => tokens,
                        None => return None,
                    };
                    let ghost before = done@;
                    let ghost part = tokens@;
                    done.append(&mut tokens);
                    done.push(id);
                    assert(chars@.skip(from + i + n) =~= rest@.skip(i + n));
                    assert(done@ + self@.encoded(rest@.skip(i + n)) =~= before + (part.push(id)
                        + self@.encoded(rest@.skip(i + n))));
                    from = from + i + n;
                },
                None => {
                    let mut tokens = match self.merge_all_of(self.char_tokens_of(rest)) {
                        Some(tokens) => tokens,
                        None => return None,
                    };
                    done.append(&mut tokens);
                    return Some(done);
                },
            }
        }
    }

    /// The tokens of a text.
    pub fn encode(&self, text: &str) -> (r: Vec<u32>)
        requires
            self.wf(),
            self@.encodes(text@),
        ensures
            r@ == self@.encoded(text@),
    {
        match self.try_encode(text) {
            Some(tokens) => tokens,
            None => vstd::pervasive::unreached(),
        }
    }

    /// The text of tokens. A token without a string adds nothing.
    pub fn decode(&self, ids: &[u32]) -> (r: String)
        ensures
            r@ == self@.decoded(ids@),
    {
        let mut r = String::new();
        let mut i: usize = 0;
        assert(ids@.take(0) =~= Seq::<u32>::empty());
        assert(self@.decoded(Seq::<u32>::empty()) =~= Seq::<char>::empty());
        while i < ids.len()
            invariant
                i <= ids@.len(),
                r@ == self@.decoded(ids@.take(i as int)),
            decreases ids@.len() - i,
        {
            let id = ids[i];
            proof {
                assert(ids@.take(i + 1) =~= ids@.take(i as int) + seq![id]);
                law_decode_streams(self@, ids@.take(i as int), seq![id]);
                lemma_spelled_one(self@, id);
            }
            if (id as usize) < self.vocab.len() {
                let token = self.vocab[id as usize].as_str();
                let ghost before = r@;
                for c in it: token.chars()
                    invariant
                        it.seq() == token@,
                        r@ == before + spaces(token@.take(it.index() as int)),
                {
                    r.push(
                        if c == SPACE_GLYPH {
                            ' '
                        } else {
                            c
                        },
                    );
                    assert(r@ =~= before + spaces(token@.take(it.index() + 1)));
                }
                assert(token@.take(token@.len() as int) =~= token@);
            } else {
                assert(self@.decoded(seq![id]) =~= Seq::<char>::empty());
                assert(r@ + Seq::<char>::empty() =~= r@);
            }
            i += 1;
        }
        assert(ids@.take(i as int) =~= ids@);
        r
    }
}

} // verus!
