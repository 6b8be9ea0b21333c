//! Shell commands with output references in them.

use crate::error::Error;
use crate::outputs::OutputTable;
use crate::target::output::{output_text, parse_output, Output, OutputKey};
use crate::target::path::{addresses, holds_address, valid_address, TargetPath};
use crate::text::{first_from, lacks, last_pos, to_chars};
use vstd::prelude::*;
use vstd::string::*;

verus! {

/// The characters that end a word of a command: the space, the tab, the
/// line feed and the carriage return.
pub open spec fn is_break(c: char) -> bool {
    c == ' ' || c == '\t' || c == '\n' || c == '\r'
}

/// One piece of a command, as a value without storage.
pub enum WordView {
    /// Text that is handed to the shell as it stands.
    Lit(Seq<char>),
    /// A reference to an output; the flag says that it was written without a
    /// slot.
    Output(OutputKey, bool),
}

/// The text that a piece was written as.
pub open spec fn word_source(w: WordView) -> Seq<char> {
    match w {
        WordView::Lit(s) => s,
        WordView::Output(key, bare) => if bare {
            key.0
        } else {
            output_text(key)
        },
    }
}

/// The text that a sequence of pieces was written as.
pub open spec fn source_of(words: Seq<WordView>) -> Seq<char>
    decreases words.len(),
{
    if words.len() == 0 {
        Seq::empty()
    } else {
        source_of(words.drop_last()) + word_source(words.last())
    }
}

/// Where the first word of `s` ends: at its first break, or at the end of `s`.
pub open spec fn is_word_end(s: Seq<char>, e: int) -> bool {
    &&& 0 <= e <= s.len()
    &&& forall|j: int| 0 <= j < e ==> !is_break(#[trigger] s[j])
    &&& e < s.len() ==> is_break(s[e])
}

/// The length of the first word of `s`, its break not counted.
pub open spec fn word_len(s: Seq<char>) -> int {
    choose|e: int| is_word_end(s, e)
}

/// A word ends in one place only.
pub proof fn lemma_word_len(s: Seq<char>, e: int)
    requires
        is_word_end(s, e),
    ensures
        word_len(s) == e,
{
}

/// The pieces that one word and the break behind it make: a reference and
/// the break where the word is an output reference, else one literal.
pub open spec fn token_words(word: Seq<char>, tail: Seq<char>) -> Seq<WordView> {
    match parse_output(word) {
        Some(key) => seq![WordView::Output(key, lacks(word, ':')), WordView::Lit(tail)],
        None => seq![WordView::Lit(word + tail)],
    }
}

/// The pieces of the command text `s`: word by word, each with the single
/// break that follows it.
pub open spec fn parse_words(s: Seq<char>) -> Seq<WordView>
    decreases s.len(),
{
    if s.len() == 0 {
        Seq::empty()
    } else {
        let e = word_len(s);
        if 0 <= e < s.len() {
            token_words(s.take(e), s.subrange(e, e + 1)) + parse_words(s.skip(e + 1))
        } else {
            token_words(s, Seq::empty())
        }
    }
}

/// Why a command cannot be rendered.
pub enum RenderFailure {
    /// Nothing is recorded for this output.
    Missing(OutputKey),
    /// The path recorded for this output is no valid text.
    NotText(OutputKey),
}

/// The shell text of `words` with every reference replaced by the path that
/// `table` records for it, or the first reference, in order, that cannot be
/// replaced.
pub open spec fn render(words: Seq<WordView>, table: Map<OutputKey, Option<Seq<char>>>) -> Result<
    Seq<char>,
    RenderFailure,
>
    decreases words.len(),
{
    if words.len() == 0 {
        Ok(Seq::empty())
    } else {
        match render(words.drop_last(), table) {
            Err(e) => Err(e),
            Ok(text) => match words.last() {
                WordView::Lit(s) => Ok(text + s),
                WordView::Output(key, _) => if !table.contains_key(key) {
                    Err(RenderFailure::Missing(key))
                } else {
                    match table[key] {
                        Some(p) => Ok(text + p),
                        None => Err(RenderFailure::NotText(key)),
                    }
                },
            },
        }
    }
}

/// The addresses that `words` refer to, each once, in the order in which
/// they first occur.
pub open spec fn referenced(words: Seq<WordView>) -> Seq<Seq<char>>
    decreases words.len(),
{
    if words.len() == 0 {
        Seq::empty()
    } else {
        let before = referenced(words.drop_last());
        match words.last() {
            WordView::Lit(_) => before,
            WordView::Output(key, _) => if before.contains(key.0) {
                before
            } else {
                before.push(key.0)
            },
        }
    }
}

/// One piece of a command.
#[derive(Debug)]
pub enum Word {
    /// Text that is handed to the shell as it stands.
    Lit(String),
    /// A reference to an output; the flag says that it was written without a
    /// slot.
    Output(Output, bool),
}

impl View for Word {
    type V = WordView;

    open spec fn view(&self) -> WordView {
        match self {
            Word::Lit(s) => WordView::Lit(s@),
            Word::Output(o, bare) => WordView::Output(o@, *bare),
        }
    }
}

/// A command: literal text and output references, in the order in which they
/// were written.
#[derive(Debug)]
pub struct Command {
    words: Vec<Word>,
}

impl View for Command {
    type V = Seq<WordView>;

    closed spec fn view(&self) -> Seq<WordView> {
        views(self.words@)
    }
}

impl Command {
    /// What holds of every command: its pieces are those that parsing makes
    /// of the text that they spell.
    #[verifier::type_invariant]
    pub open spec fn wf(&self) -> bool {
        self@ == parse_words(source_of(self@))
    }

    /// Parses a command. Every text is one: a word that is no output
    /// reference stays literal text. What was written can be read back from
    /// the pieces, character by character.
    pub fn from_str(s: &str) -> (r: Command)
        ensures
            r@ == parse_words(s@),
            source_of(r@) == s@,
            r.wf(),
    {
        let v = to_chars(s);
        let n = v.len();
        let mut words: Vec<Word> = Vec::new();
        let mut i: usize = 0;
        assert(s@.skip(0) =~= s@);
        while i < n
            invariant
                v@ == s@,
                n == v.len(),
                i <= n,
                parse_words(s@) == views(words@) + parse_words(s@.skip(i as int)),
            decreases n - i,
        {
            let e = word_end(&v, i);
            let next: usize = if e < n {
                e + 1
            } else {
                n
            };
            proof {
                lemma_parse_step(s@, i as int, e as int);
            }
            let ghost before = views(words@);
            push_token(s, &v, i, e, next, &mut words);
            assert(parse_words(s@) =~= views(words@) + parse_words(s@.skip(next as int)));
            i = next;
        }
        proof {
            lemma_parse_source(s@);
        }
        Command { words }
    }

    /// The command as it was written.
    pub fn to_string(&self) -> (r: String)
        ensures
            r@ == source_of(self@),
    {
        let mut out = String::new();
        let mut i: usize = 0;
        while i < self.words.len()
            invariant
                i <= self.words.len(),
                out@ == source_of(self@.take(i as int)),
            decreases self.words.len() - i,
        {
            proof {
                assert(self@.take(i + 1).drop_last() =~= self@.take(i as int));
            }
            match &self.words[i] {
                Word::Lit(s) => {
                    out.append(s.as_str());
                },
                Word::Output(o, bare) => {
                    if *bare {
                        out.append(o.target().to_string().as_str());
                    } else {
                        out.append(o.to_string().as_str());
                    }
                },
            }
            i += 1;
        }
        assert(self@.take(i as int) =~= self@);
        out
    }

    /// The targets that the command refers to, each once, in the order in
    /// which they first occur.
    pub fn targets(&self) -> (r: Vec<TargetPath>)
        ensures
            addresses(r@) == referenced(self@),
    {
        let mut out: Vec<TargetPath> = Vec::new();
        let mut i: usize = 0;
        while i < self.words.len()
            invariant
                i <= self.words.len(),
                addresses(out@) == referenced(self@.take(i as int)),
            decreases self.words.len() - i,
        {
            let ghost before = self@.take(i as int);
            proof {
                assert(self@.take(i + 1).drop_last() =~= before);
            }
            match &self.words[i] {
                Word::Lit(_) => {},
                Word::Output(o, _) => {
                    if !holds_address(&out, o.target()) {
                        out.push(o.target().clone());
                    }
                },
            }
            i += 1;
        }
        assert(self@.take(i as int) =~= self@);
        out
    }

    /// The command as the shell takes it: the pieces in order, each
    /// reference replaced by the path recorded for its output. Fails at the
    /// first reference for which nothing is recorded, or whose path is no
    /// valid text.
    pub fn as_sh(&self, outputs: &OutputTable) -> (r: Result<String, Error>)
        ensures
            match render(self@, outputs@) {
                Ok(text) => r is Ok && r->Ok_0@ == text,
                Err(RenderFailure::Missing(key)) => r matches Err(Error::MissingOutput(o)) && o@
                    == key,
                Err(RenderFailure::NotText(key)) => r matches Err(Error::NonUtf8Path(o)) && o@
                    == key,
            },
    {
        let mut out = String::new();
        let mut i: usize = 0;
        while i < self.words.len()
            invariant
                i <= self.words.len(),
                render(self@.take(i as int), outputs@) == Ok::<Seq<char>, RenderFailure>(out@),
            decreases self.words.len() - i,
        {
            proof {
                assert(self@.take(i + 1).drop_last() =~= self@.take(i as int));
            }
            match &self.words[i] {
                Word::Lit(s) => {
                    out.append(s.as_str());
                },
                Word::Output(o, _) => {
                    match outputs.get(o) {
                        None => {
                            proof {
                                lemma_render_stops(self@, i + 1, outputs@);
                            }
                            return Err(Error::MissingOutput(o.clone()));
                        },
                        Some(None) => {
                            proof {
                                lemma_render_stops(self@, i + 1, outputs@);
                            }
                            return Err(Error::NonUtf8Path(o.clone()));
                        },
                        Some(Some(p)) => {
                            out.append(p.as_str());
                        },
                    }
                },
            }
            i += 1;
        }
        assert(self@.take(i as int) =~= self@);
        Ok(out)
    }
}

/// The pieces in `words`, as values without storage.
pub open spec fn views(words: Seq<Word>) -> Seq<WordView> {
    Seq::new(words.len(), |k: int| words[k]@)
}

/// Adds to `words` the pieces of the word that runs from `i` to `e` and of
/// the break, if there is one, from `e` to `next`.
fn push_token(s: &str, v: &Vec<char>, i: usize, e: usize, next: usize, words: &mut Vec<Word>)
    requires
        v@ == s@,
        i <= e <= next <= v.len(),
    ensures
        views(final(words)@) == views(old(words)@) + token_words(
            s@.subrange(i as int, e as int),
            s@.subrange(e as int, next as int),
        ),
{
    let word = s.substring_char(i, e);
    let ghost tail = s@.subrange(e as int, next as int);
    let ghost before = views(words@);
    match Output::from_str(word) {
        Ok(o) => {
            let c = first_from(v, ':', i);
            let bare = c >= e;
            proof {
                lemma_bare(v@, i as int, e as int, c as int);
            }
            let ghost w1 = WordView::Output(o@, bare);
            words.push(Word::Output(o, bare));
            words.push(Word::Lit(String::from_str(s.substring_char(e, next))));
            assert(before.push(w1).push(WordView::Lit(tail)) =~= before + seq![
                w1,
                WordView::Lit(tail),
            ]);
        },
        Err(_) => {
            let token = String::from_str(s.substring_char(i, next));
            assert(token@ =~= word@ + tail);
            words.push(Word::Lit(token));
            assert(before.push(WordView::Lit(word@ + tail)) =~= before + seq![
                WordView::Lit(word@ + tail),
            ]);
        },
    }
}

/// The pieces from place `i` on are those of the word that begins there and
/// those of what follows its break.
proof fn lemma_parse_step(s: Seq<char>, i: int, e: int)
    requires
        0 <= i < s.len(),
        i <= e <= s.len(),
        is_word_end(s.skip(i), e - i),
    ensures
        parse_words(s.skip(i)) == token_words(
            s.subrange(i, e),
            s.subrange(
                e,
                if e < s.len() {
                    e + 1
                } else {
                    e
                },
            ),
        ) + parse_words(
            s.skip(
                if e < s.len() {
                    e + 1
                } else {
                    e
                },
            ),
        ),
{
    let rest = s.skip(i);
    lemma_word_len(rest, e - i);
    assert(rest.take(e - i) =~= s.subrange(i, e));
    if e < s.len() {
        assert(rest.subrange(e - i, e - i + 1) =~= s.subrange(e, e + 1));
        assert(rest.skip(e - i + 1) =~= s.skip(e + 1));
    } else {
        assert(s.subrange(e, e) =~= Seq::empty());
        let t = token_words(rest, Seq::empty());
    }
}

/// The text of two sequences of pieces, one after the other.
pub proof fn lemma_source_concat(a: Seq<WordView>, b: Seq<WordView>)
    ensures
        source_of(a + b) == source_of(a) + source_of(b),
    decreases b.len(),
{
    if b.len() > 0 {
        assert((a + b).drop_last() =~= a + b.drop_last());
        lemma_source_concat(a, b.drop_last());
    }
}

/// The pieces of one word and its break spell the word and the break.
pub proof fn lemma_token_source(word: Seq<char>, tail: Seq<char>)
    ensures
        source_of(token_words(word, tail)) == word + tail,
{
    let t = token_words(word, tail);
    let none = Seq::<WordView>::empty();
    match parse_output(word) {
        Some(key) => {
            lemma_reference_source(word);
            let w1 = WordView::Output(key, lacks(word, ':'));
            let w2 = WordView::Lit(tail);
            lemma_source_push(none, w1);
            lemma_source_push(none.push(w1), w2);
            assert(t =~= none.push(w1).push(w2));
        },
        None => {
            let w = WordView::Lit(word + tail);
            lemma_source_push(none, w);
        },
    }
}

/// Parsing loses nothing: the pieces of a command text spell that text.
pub proof fn lemma_parse_source(s: Seq<char>)
    ensures
        source_of(parse_words(s)) == s,
    decreases s.len(),
{
    if s.len() > 0 {
        let e = word_len(s);
        if 0 <= e < s.len() {
            let head = token_words(s.take(e), s.subrange(e, e + 1));
            lemma_token_source(s.take(e), s.subrange(e, e + 1));
            lemma_parse_source(s.skip(e + 1));
            lemma_source_concat(head, parse_words(s.skip(e + 1)));
        } else {
            lemma_token_source(s, Seq::empty());
        }
    }
}

/// A command that is one well-formed address and nothing else refers to
/// that address and to no other, and to its default slot.
pub proof fn lemma_command_of_address(s: Seq<char>)
    requires
        valid_address(s),
    ensures
        parse_words(s) == seq![
            WordView::Output((s, "default"@), true),
            WordView::Lit(Seq::<char>::empty()),
        ],
        referenced(parse_words(s)) == seq![s],
        source_of(parse_words(s)) == s,
{
    crate::target::path::lemma_address_chars(s);
    assert(is_word_end(s, s.len() as int));
    lemma_word_len(s, s.len() as int);
    assert(lacks(s, ':'));
    crate::text::lemma_no_pos(s, ':');
    let reference = WordView::Output((s, "default"@), true);
    let words = seq![reference, WordView::Lit(Seq::<char>::empty())];
    assert(parse_words(s) =~= words);
    let first = words.drop_last();
    assert(first =~= seq![reference]);
    assert(first.drop_last() =~= Seq::<WordView>::empty());
    assert(referenced(first.drop_last()) =~= Seq::<Seq<char>>::empty());
    assert(referenced(first) =~= seq![s]);
    assert(referenced(words) =~= seq![s]);
    lemma_parse_source(s);
}

/// `table` records a path that is text for every output that `words` refer
/// to.
pub open spec fn resolved(words: Seq<WordView>, table: Map<OutputKey, Option<Seq<char>>>) -> bool {
    forall|i: int|
        0 <= i < words.len() ==> ((#[trigger] words[i]) matches WordView::Output(key, _)
            ==> table.contains_key(key) && table[key] is Some)
}

/// What one piece stands for in the shell text: a literal for itself, a
/// reference for the path that `table` records.
pub open spec fn word_value(w: WordView, table: Map<OutputKey, Option<Seq<char>>>) -> Seq<char> {
    match w {
        WordView::Lit(s) => s,
        WordView::Output(key, _) => table[key]->Some_0,
    }
}

/// The pieces of `words` in order, each reference replaced by the path that
/// `table` records for it and every literal left as it is.
pub open spec fn spliced(words: Seq<WordView>, table: Map<OutputKey, Option<Seq<char>>>) -> Seq<
    char,
>
    decreases words.len(),
{
    if words.len() == 0 {
        Seq::empty()
    } else {
        spliced(words.drop_last(), table) + word_value(words.last(), table)
    }
}

/// With every reference resolved, rendering succeeds, and gives the pieces
/// with the references replaced and nothing else changed.
pub proof fn lemma_render_resolved(words: Seq<WordView>, table: Map<OutputKey, Option<Seq<char>>>)
    requires
        resolved(words, table),
    ensures
        render(words, table) == Ok::<Seq<char>, RenderFailure>(spliced(words, table)),
    decreases words.len(),
{
    if words.len() > 0 {
        let before = words.drop_last();
        lemma_render_resolved(before, table);
    }
}

/// Rendering a parsed command against a table that resolves every reference
/// in it gives the command text with the references replaced by their paths
/// and every other character, breaks included, unchanged: what is spliced
/// differs from what was written in the references only.
pub proof fn lemma_render_parsed(c: Seq<char>, table: Map<OutputKey, Option<Seq<char>>>)
    requires
        resolved(parse_words(c), table),
    ensures
        render(parse_words(c), table) == Ok::<Seq<char>, RenderFailure>(
            spliced(parse_words(c), table),
        ),
        source_of(parse_words(c)) == c,
        spliced(parse_words(c), table).len() - c.len() == growth(parse_words(c), table),
{
    lemma_render_resolved(parse_words(c), table);
    lemma_parse_source(c);
    lemma_growth(parse_words(c), table);
}

/// By how much the references of `words` grow when the paths of `table` are
/// put in their place.
pub open spec fn growth(words: Seq<WordView>, table: Map<OutputKey, Option<Seq<char>>>) -> int
    decreases words.len(),
{
    if words.len() == 0 {
        0
    } else {
        growth(words.drop_last(), table) + word_value(words.last(), table).len() - word_source(
            words.last(),
        ).len()
    }
}

/// What is spliced is longer than what was written by the growth of the
/// references, and by nothing else.
pub proof fn lemma_growth(words: Seq<WordView>, table: Map<OutputKey, Option<Seq<char>>>)
    ensures
        spliced(words, table).len() - source_of(words).len() == growth(words, table),
    decreases words.len(),
{
    if words.len() > 0 {
        lemma_growth(words.drop_last(), table);
    }
}

/// Where `table` records for every reference the very text that it was
/// written as, rendering gives the text as it was written.
pub proof fn lemma_render_identity(words: Seq<WordView>, table: Map<OutputKey, Option<Seq<char>>>)
    requires
        forall|i: int|
            0 <= i < words.len() ==> ((#[trigger] words[i]) matches WordView::Output(key, _)
                ==> table.contains_key(key) && table[key] == Some(word_source(words[i]))),
    ensures
        render(words, table) == Ok::<Seq<char>, RenderFailure>(source_of(words)),
    decreases words.len(),
{
    if words.len() > 0 {
        let before = words.drop_last();
        lemma_render_identity(before, table);
    }
}

/// A command without references renders to itself, whatever the table
/// holds.
pub proof fn lemma_render_literal(words: Seq<WordView>, table: Map<OutputKey, Option<Seq<char>>>)
    requires
        referenced(words).len() == 0,
    ensures
        render(words, table) == Ok::<Seq<char>, RenderFailure>(source_of(words)),
    decreases words.len(),
{
    if words.len() > 0 {
        let before = words.drop_last();
        assert(referenced(before).len() == 0);
        lemma_render_literal(before, table);
        assert(words.last() is Lit);
    }
}

/// Whether `c` ends a word.
fn at_break(c: char) -> (r: bool)
    ensures
        r == is_break(c),
{
    c == ' ' || c == '\t' || c == '\n' || c == '\r'
}

/// Where the word that begins at `from` ends.
fn word_end(v: &Vec<char>, from: usize) -> (e: usize)
    requires
        from <= v.len(),
    ensures
        from <= e <= v.len(),
        is_word_end(v@.skip(from as int), e - from),
{
    let mut e: usize = from;
    while e < v.len() && !at_break(v[e])
        invariant
            from <= e <= v.len(),
            forall|j: int| from <= j < e ==> !is_break(#[trigger] v[j]),
        decreases v.len() - e,
    {
        e += 1;
    }
    e
}

/// A word holds no `:` between `from` and `to` exactly when the first `:`
/// from `from` on lies at or behind `to`.
proof fn lemma_bare(s: Seq<char>, from: int, to: int, c: int)
    requires
        0 <= from <= to <= s.len(),
        from <= c <= s.len(),
        lacks(s.subrange(from, c), ':'),
        c < s.len() ==> s[c] == ':',
    ensures
        (c >= to) == lacks(s.subrange(from, to), ':'),
{
    if c < to {
        assert(s.subrange(from, to)[c - from] == ':');
    }
}

/// An output reference is written as its word: with its slot where the word
/// holds a `:`, as the bare target where it holds none.
pub proof fn lemma_reference_source(word: Seq<char>)
    requires
        parse_output(word) is Some,
    ensures
        word_source(WordView::Output(parse_output(word)->Some_0, lacks(word, ':'))) == word,
{
    match last_pos(word, ':') {
        Some(k) => {
        },
        None => {
            if !lacks(word, ':') {
                crate::text::lemma_some_last(word, ':');
            }
        },
    }
}

/// The text of a sequence with one more piece.
pub proof fn lemma_source_push(words: Seq<WordView>, w: WordView)
    ensures
        source_of(words.push(w)) == source_of(words) + word_source(w),
{
    assert(words.push(w).drop_last() =~= words);
}

/// Rendering stops at the first reference that cannot be replaced: what
/// fails for the first `n` pieces fails alike for all of them.
pub proof fn lemma_render_stops(
    words: Seq<WordView>,
    n: int,
    table: Map<OutputKey, Option<Seq<char>>>,
)
    requires
        0 <= n <= words.len(),
        render(words.take(n), table) is Err,
    ensures
        render(words, table) == render(words.take(n), table),
    decreases words.len() - n,
{
    if n < words.len() {
        assert(words.take(n + 1).drop_last() =~= words.take(n));
        lemma_render_stops(words, n + 1, table);
    } else {
        assert(words.take(n) =~= words);
    }
}

} // verus!
