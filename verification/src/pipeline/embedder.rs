use vstd::prelude::*;
use vstd::std_specs::iter::IteratorSpec;
use vstd::string::StringSliceAdditionalSpecFns;
use vstd::utf8::encode_utf8;
use crate::scene::views;

verus! {

/// The result of `str::to_lowercase` on a text (Unicode lower-case mapping,
/// which may change the number of characters).
pub uninterp spec fn lower_chars(s: Seq<char>) -> Seq<char>;

/// Whether a character has the Unicode `White_Space` property
/// (`char::is_whitespace`).
pub uninterp spec fn char_whitespace(c: char) -> bool;

/// Whether a character has the Unicode `Uppercase` property
/// (`char::is_uppercase`).
pub uninterp spec fn char_uppercase(c: char) -> bool;

/// Whether a character has the Unicode `Lowercase` property
/// (`char::is_lowercase`).
pub uninterp spec fn char_lowercase(c: char) -> bool;

/// `String::push`: appends one character.
#[verifier::external_body]
fn push_char(s: &mut String, c: char)
    ensures
        final(s)@ == old(s)@.push(c),
{
    s.push(c)
}

/// `str::to_lowercase`: the lower-case form of a text, as named by
/// `lower_chars`.
#[verifier::external_body]
fn to_lower(s: &str) -> (r: String)
    ensures
        r@ == lower_chars(s@),
{
    s.to_lowercase()
}

/// `char::is_whitespace`, as named by `char_whitespace`.
#[verifier::external_body]
fn is_whitespace(c: char) -> (b: bool)
    ensures
        b == char_whitespace(c),
{
    c.is_whitespace()
}

/// `char::is_uppercase`, as named by `char_uppercase`.
#[verifier::external_body]
fn is_uppercase(c: char) -> (b: bool)
    ensures
        b == char_uppercase(c),
{
    c.is_uppercase()
}

/// `char::is_lowercase`, as named by `char_lowercase`.
#[verifier::external_body]
fn is_lowercase(c: char) -> (b: bool)
    ensures
        b == char_lowercase(c),
{
    c.is_lowercase()
}

/// The punctuation that separates words besides white space.
pub open spec fn is_punctuation(c: char) -> bool {
    c == '{' || c == '}' || c == '(' || c == ')' || c == '[' || c == ']' || c == ';' || c == ','
        || c == ':' || c == '.' || c == '"' || c == '\'' || c == '`' || c == '#' || c == '='
        || c == '<' || c == '>' || c == '+' || c == '-' || c == '*' || c == '/' || c == '&'
        || c == '|' || c == '!' || c == '?' || c == '@'
}

/// Characters that end a word: white space and punctuation.
pub open spec fn is_word_separator(c: char) -> bool {
    char_whitespace(c) || is_punctuation(c)
}

/// The separators of a split: word separators when `words`, else '_'.
pub open spec fn separates(words: bool, c: char) -> bool {
    if words {
        is_word_separator(c)
    } else {
        c == '_'
    }
}

/// The pieces of `s` between separators, empty pieces included (`n`
/// separators give `n + 1` pieces), as `str::split` yields them.
pub open spec fn split_on(s: Seq<char>, words: bool) -> Seq<Seq<char>>
    decreases s.len(),
{
    if s.len() == 0 {
        seq![seq![]]
    } else {
        let p = split_on(s.drop_last(), words);
        if separates(words, s.last()) {
            p.push(seq![])
        } else {
            p.update(p.len() - 1, p.last().push(s.last()))
        }
    }
}

/// The token made of a piece, if any: its lower-case form, kept when that
/// is longer than one byte.
pub open spec fn keep(t: Seq<char>) -> Seq<Seq<char>> {
    let l = lower_chars(t);
    if encode_utf8(l).len() > 1 {
        seq![l]
    } else {
        seq![]
    }
}

/// The tokens of a list of pieces, in order.
pub open spec fn keep_all(parts: Seq<Seq<char>>) -> Seq<Seq<char>>
    decreases parts.len(),
{
    if parts.len() == 0 {
        seq![]
    } else {
        keep_all(parts.drop_last()) + keep(parts.last())
    }
}

/// A camel-case boundary at position `k` of a word: an upper-case letter
/// right after a lower-case one.
pub open spec fn camel_boundary(w: Seq<char>, k: int) -> bool {
    char_uppercase(w[k]) && char_lowercase(w[k - 1])
}

/// The camel-case scan of word `w` over positions `1 .. i`: the tokens of the
/// pieces closed so far and the start of the open piece.
pub open spec fn camel(w: Seq<char>, i: int) -> (Seq<Seq<char>>, int)
    decreases i,
{
    if i <= 1 {
        (seq![], 0)
    } else {
        let (t, st) = camel(w, i - 1);
        let k = i - 1;
        if camel_boundary(w, k) {
            (t + keep(w.subrange(st, k)), k)
        } else {
            (t, st)
        }
    }
}

/// The tokens of one word: its camel-case pieces before the last boundary,
/// then the snake-case pieces of the rest.
pub open spec fn word_tokens(w: Seq<char>) -> Seq<Seq<char>> {
    let (t, st) = camel(w, w.len() as int);
    t + keep_all(split_on(w.subrange(st, w.len() as int), false))
}

/// The tokens of a list of words, skipping the empty ones.
pub open spec fn tokens_of_words(ws: Seq<Seq<char>>) -> Seq<Seq<char>>
    decreases ws.len(),
{
    if ws.len() == 0 {
        seq![]
    } else {
        tokens_of_words(ws.drop_last()) + if ws.last().len() == 0 {
            seq![]
        } else {
            word_tokens(ws.last())
        }
    }
}

/// The tokens of a text: split into words at white space and punctuation,
/// each word split at camel-case boundaries and its rest at underscores,
/// every piece lower-cased and kept when longer than one byte.
pub open spec fn spec_tokenize(s: Seq<char>) -> Seq<Seq<char>> {
    tokens_of_words(split_on(s, true))
}

fn chars_of(s: &str) -> (v: Vec<char>)
    ensures
        v@ == s@,
{
    broadcast use vstd::string::group_string_axioms;

    let mut v: Vec<char> = Vec::new();
    for c in it: s.chars()
        invariant
            v@ == it.seq().take(it.index()),
            it.seq() == s@,
    {
        v.push(c);
    }
    v
}

fn is_punctuation_char(c: char) -> (b: bool)
    ensures
        b == is_punctuation(c),
{
    c == '{' || c == '}' || c == '(' || c == ')' || c == '[' || c == ']' || c == ';' || c == ','
        || c == ':' || c == '.' || c == '"' || c == '\'' || c == '`' || c == '#' || c == '='
        || c == '<' || c == '>' || c == '+' || c == '-' || c == '*' || c == '/' || c == '&'
        || c == '|' || c == '!' || c == '?' || c == '@'
}

proof fn lemma_split_step(s: Seq<char>, i: int, words: bool)
    requires
        0 <= i < s.len(),
    ensures
        split_on(s.take(i + 1), words) == if separates(words, s[i]) {
            split_on(s.take(i), words).push(seq![])
        } else {
            split_on(s.take(i), words).update(
                split_on(s.take(i), words).len() - 1,
                split_on(s.take(i), words).last().push(s[i]),
            )
        },
{
    assert(s.take(i + 1).drop_last() =~= s.take(i));
    assert(s.take(i + 1).last() == s[i]);
}

proof fn lemma_split_nonempty(s: Seq<char>, words: bool)
    ensures
        split_on(s, words).len() >= 1,
    decreases s.len(),
{
    if s.len() > 0 {
        lemma_split_nonempty(s.drop_last(), words);
    }
}

proof fn lemma_encode_len_at_least(l: Seq<char>)
    ensures
        encode_utf8(l).len() >= l.len(),
    decreases l.len(),
{
    if l.len() > 0 {
        lemma_encode_len_at_least(l.drop_first());
    }
}

/// A text is longer than one byte in UTF-8 exactly when it has two or more
/// characters, or one character outside ASCII.
proof fn lemma_longer_than_one_byte(l: Seq<char>)
    ensures
        encode_utf8(l).len() > 1 <==> (l.len() > 1 || (l.len() == 1 && l[0] as u32 >= 0x80)),
{
    lemma_encode_len_at_least(l);
    if l.len() == 1 {
        assert(l.drop_first().len() == 0);
        assert(encode_utf8(l.drop_first()) =~= Seq::<u8>::empty());
    }
}

/// Append the token of the piece `cs[a..b]`, if any.
fn emit_kept(cs: &Vec<char>, a: usize, b: usize, tokens: &mut Vec<String>)
    requires
        a <= b <= cs@.len(),
    ensures
        views(final(tokens)@) == views(old(tokens)@) + keep(cs@.subrange(a as int, b as int)),
{
    let mut piece = String::new();
    let mut k: usize = a;
    while k < b
        invariant
            a <= k <= b <= cs@.len(),
            piece@ == cs@.subrange(a as int, k as int),
        decreases b - k,
    {
        push_char(&mut piece, cs[k]);
        proof {
            assert(cs@.subrange(a as int, k as int + 1) =~= cs@.subrange(a as int, k as int).push(cs@[k as int]));
        }
        k = k + 1;
    }
    let lowered = to_lower(piece.as_str());
    let lc = chars_of(lowered.as_str());
    let ghost before = views(tokens@);
    proof {
        lemma_longer_than_one_byte(lowered@);
    }
    if lc.len() > 1 || (lc.len() == 1 && lc[0] as u32 >= 0x80) {
        tokens.push(lowered);
        proof {
            assert(views(tokens@) =~= before + keep(cs@.subrange(a as int, b as int)));
        }
    } else {
        proof {
            assert(views(tokens@) =~= before + keep(cs@.subrange(a as int, b as int)));
        }
    }
}


/// Append the tokens of the non-empty word `cs[lo..hi]`.
fn emit_word(cs: &Vec<char>, lo: usize, hi: usize, tokens: &mut Vec<String>)
    requires
        lo < hi <= cs@.len(),
    ensures
        views(final(tokens)@) == views(old(tokens)@) + word_tokens(cs@.subrange(lo as int, hi as int)),
{
    let ghost w = cs@.subrange(lo as int, hi as int);
    let ghost base = views(tokens@);
    let n = hi - lo;
    let mut start: usize = 0;
    let mut i: usize = 1;
    proof {
        assert(base + camel(w, 1).0 =~= base);
    }
    while i < n
        invariant
            lo < hi <= cs@.len(),
            n == hi - lo,
            w == cs@.subrange(lo as int, hi as int),
            1 <= i <= n,
            start < i,
            views(tokens@) == base + camel(w, i as int).0,
            start == camel(w, i as int).1,
        decreases n - i,
    {
        let c = cs[lo + i];
        let p = cs[lo + i - 1];
        let up = is_uppercase(c);
        let low = is_lowercase(p);
        proof {
            assert(w[i as int] == c);
            assert(w[i - 1] == p);
        }
        if up && low {
            let ghost mid = views(tokens@);
            emit_kept(cs, lo + start, lo + i, tokens);
            proof {
                assert(w.subrange(start as int, i as int) =~= cs@.subrange(lo + start, lo + i));
                assert(views(tokens@) =~= base + camel(w, i as int + 1).0);
            }
            start = i;
        }
        i = i + 1;
    }
    let ghost t0 = views(tokens@);
    let r0 = lo + start;
    let ghost rest = cs@.subrange(r0 as int, hi as int);
    proof {
        assert(rest =~= w.subrange(start as int, n as int));
        assert(rest.take(0) =~= Seq::<char>::empty());
        assert(cs@.subrange(r0 as int, r0 as int) =~= Seq::<char>::empty());
        assert(split_on(rest.take(0), false) =~= seq![cs@.subrange(r0 as int, r0 as int)]);
        assert(t0 + keep_all(Seq::<Seq<char>>::empty()) =~= t0);
    }
    let mut ps: usize = r0;
    let mut j: usize = r0;
    let ghost mut parts: Seq<Seq<char>> = seq![];
    while j < hi
        invariant
            lo <= r0 <= ps <= j <= hi <= cs@.len(),
            rest == cs@.subrange(r0 as int, hi as int),
            split_on(rest.take(j - r0), false) == parts.push(cs@.subrange(ps as int, j as int)),
            views(tokens@) == t0 + keep_all(parts),
        decreases hi - j,
    {
        proof {
            lemma_split_step(rest, j - r0, false);
            assert(rest[j - r0] == cs@[j as int]);
        }
        if cs[j] == '_' {
            emit_kept(cs, ps, j, tokens);
            proof {
                let np = parts.push(cs@.subrange(ps as int, j as int));
                assert(keep_all(np) == keep_all(parts) + keep(cs@.subrange(ps as int, j as int))) by {
                    assert(np.drop_last() =~= parts);
                }
                assert(views(tokens@) =~= t0 + keep_all(np));
                assert(cs@.subrange(j + 1, j + 1) =~= Seq::<char>::empty());
                parts = np;
            }
            ps = j + 1;
        } else {
            proof {
                assert(cs@.subrange(ps as int, j + 1) =~= cs@.subrange(ps as int, j as int).push(cs@[j as int]));
                assert(parts.push(cs@.subrange(ps as int, j as int)).update(parts.len() as int, cs@.subrange(ps as int, j + 1)) =~= parts.push(cs@.subrange(ps as int, j + 1)));
            }
        }
        j = j + 1;
    }
    emit_kept(cs, ps, hi, tokens);
    proof {
        assert(rest.take(hi - r0) =~= rest);
        let all = parts.push(cs@.subrange(ps as int, hi as int));
        assert(all.drop_last() =~= parts);
        assert(keep_all(all) == keep_all(parts) + keep(cs@.subrange(ps as int, hi as int)));
        assert(camel(w, n as int) == camel(w, w.len() as int));
        assert(views(tokens@) =~= base + word_tokens(w));
    }
}

/// Split a text into lower-case tokens: words are separated by white space
/// and punctuation; a word is split at each lower-to-upper case change, and
/// the part after the last such change at underscores; every piece is
/// lower-cased and kept when it is longer than one byte.
pub fn tokenize(s: &str) -> (tokens: Vec<String>)
    ensures
        views(tokens@) == spec_tokenize(s@),
{
    let cs = chars_of(s);
    let mut tokens: Vec<String> = Vec::new();
    let mut ws: usize = 0;
    let mut i: usize = 0;
    let ghost mut words: Seq<Seq<char>> = seq![];
    proof {
        assert(cs@.take(0) =~= Seq::<char>::empty());
        assert(split_on(cs@.take(0), true) =~= seq![cs@.subrange(0, 0)]);
        assert(views(tokens@) =~= tokens_of_words(words));
    }
    while i < cs.len()
        invariant
            cs@ == s@,
            ws <= i <= cs@.len(),
            split_on(cs@.take(i as int), true) == words.push(cs@.subrange(ws as int, i as int)),
            views(tokens@) == tokens_of_words(words),
        decreases cs@.len() - i,
    {
        proof {
            lemma_split_step(cs@, i as int, true);
        }
        let c = cs[i];
        let sep = is_whitespace(c) || is_punctuation_char(c);
        if sep {
            let ghost word = cs@.subrange(ws as int, i as int);
            if ws < i {
                emit_word(&cs, ws, i, &mut tokens);
            }
            proof {
                let nw = words.push(word);
                assert(nw.drop_last() =~= words);
                assert(views(tokens@) =~= tokens_of_words(nw));
                assert(cs@.subrange(i + 1, i + 1) =~= Seq::<char>::empty());
                words = nw;
            }
            ws = i + 1;
        } else {
            proof {
                assert(cs@.subrange(ws as int, i + 1) =~= cs@.subrange(ws as int, i as int).push(cs@[i as int]));
                assert(words.push(cs@.subrange(ws as int, i as int)).update(words.len() as int, cs@.subrange(ws as int, i + 1)) =~= words.push(cs@.subrange(ws as int, i + 1)));
            }
        }
        i = i + 1;
    }
    let ghost last = cs@.subrange(ws as int, cs@.len() as int);
    if ws < cs.len() {
        emit_word(&cs, ws, cs.len(), &mut tokens);
    }
    proof {
        assert(cs@.take(cs@.len() as int) =~= cs@);
        let all = words.push(last);
        assert(all.drop_last() =~= words);
        assert(views(tokens@) =~= tokens_of_words(all));
    }
    tokens
}


/// Every text of `ts` is longer than one byte in UTF-8.
pub open spec fn all_longer_than_one_byte(ts: Seq<Seq<char>>) -> bool {
    forall|i: int| 0 <= i < ts.len() ==> encode_utf8(#[trigger] ts[i]).len() > 1
}

proof fn lemma_long_concat(a: Seq<Seq<char>>, b: Seq<Seq<char>>)
    requires
        all_longer_than_one_byte(a),
        all_longer_than_one_byte(b),
    ensures
        all_longer_than_one_byte(a + b),
{
    assert forall|i: int| 0 <= i < (a + b).len() implies encode_utf8(#[trigger] (a + b)[i]).len() > 1 by {
        if i < a.len() {
            assert((a + b)[i] == a[i]);
        } else {
            assert((a + b)[i] == b[i - a.len()]);
        }
    }
}

proof fn lemma_keep_all_long(parts: Seq<Seq<char>>)
    ensures
        all_longer_than_one_byte(keep_all(parts)),
    decreases parts.len(),
{
    if parts.len() > 0 {
        lemma_keep_all_long(parts.drop_last());
        lemma_long_concat(keep_all(parts.drop_last()), keep(parts.last()));
    }
}

proof fn lemma_camel_long(w: Seq<char>, i: int)
    ensures
        all_longer_than_one_byte(camel(w, i).0),
    decreases i,
{
    if i > 1 {
        lemma_camel_long(w, i - 1);
        let (t, st) = camel(w, i - 1);
        lemma_long_concat(t, keep(w.subrange(st, i - 1)));
    }
}

proof fn lemma_words_long(ws: Seq<Seq<char>>)
    ensures
        all_longer_than_one_byte(tokens_of_words(ws)),
    decreases ws.len(),
{
    if ws.len() > 0 {
        lemma_words_long(ws.drop_last());
        let w = ws.last();
        if w.len() == 0 {
            lemma_long_concat(tokens_of_words(ws.drop_last()), seq![]);
        } else {
            let (t, st) = camel(w, w.len() as int);
            lemma_camel_long(w, w.len() as int);
            lemma_keep_all_long(split_on(w.subrange(st, w.len() as int), false));
            lemma_long_concat(t, keep_all(split_on(w.subrange(st, w.len() as int), false)));
            lemma_long_concat(tokens_of_words(ws.drop_last()), word_tokens(w));
        }
    }
}

/// No token of any text is a single byte: pieces whose lower-case form is
/// empty or one byte long are dropped.
pub proof fn lemma_tokens_longer_than_one_byte(s: Seq<char>)
    ensures
        all_longer_than_one_byte(spec_tokenize(s)),
{
    lemma_words_long(split_on(s, true));
}

proof fn lemma_split_concat(x: Seq<char>, c: char, y: Seq<char>, words: bool)
    requires
        separates(words, c),
    ensures
        split_on(x.push(c) + y, words) == split_on(x, words) + split_on(y, words),
    decreases y.len(),
{
    if y.len() == 0 {
        assert(x.push(c) + y =~= x.push(c));
        assert(x.push(c).drop_last() =~= x);
        assert(split_on(x, words).push(seq![]) =~= split_on(x, words) + seq![seq![]]);
    } else {
        let z = x.push(c) + y;
        let yd = y.drop_last();
        assert(z.drop_last() =~= x.push(c) + yd);
        assert(z.last() == y.last());
        lemma_split_concat(x, c, yd, words);
        let p = split_on(x, words);
        let q = split_on(yd, words);
        lemma_split_nonempty(yd, words);
        if separates(words, y.last()) {
            assert((p + q).push(seq![]) =~= p + q.push(seq![]));
        } else {
            assert((p + q).last() == q.last());
            assert((p + q).update((p + q).len() - 1, (p + q).last().push(y.last())) =~= p + q.update(
                q.len() - 1,
                q.last().push(y.last()),
            ));
        }
    }
}

proof fn lemma_tokens_of_words_concat(w1: Seq<Seq<char>>, w2: Seq<Seq<char>>)
    ensures
        tokens_of_words(w1 + w2) == tokens_of_words(w1) + tokens_of_words(w2),
    decreases w2.len(),
{
    if w2.len() == 0 {
        assert(w1 + w2 =~= w1);
        assert(tokens_of_words(w1) + Seq::<Seq<char>>::empty() =~= tokens_of_words(w1));
    } else {
        let d = w2.drop_last();
        lemma_tokens_of_words_concat(w1, d);
        assert((w1 + w2).drop_last() =~= w1 + d);
        assert((w1 + w2).last() == w2.last());
        let extra = if w2.last().len() == 0 {
            Seq::<Seq<char>>::empty()
        } else {
            word_tokens(w2.last())
        };
        assert(tokens_of_words(w1) + tokens_of_words(d) + extra =~= tokens_of_words(w1) + (tokens_of_words(d)
            + extra));
    }
}

proof fn lemma_listed_is_punctuation(c: char)
    requires
        "{}()[];,:.\"'`#=<>+-*/&|!?@"@.contains(c),
    ensures
        is_punctuation(c),
{
    reveal_strlit("{}()[];,:.\"'`#=<>+-*/&|!?@");
    let l = "{}()[];,:.\"'`#=<>+-*/&|!?@"@;
    let i = choose|i: int| 0 <= i < l.len() && l[i] == c;
    assert(l.len() == 26);
    assert(0 <= i < 26);
}

/// White space and each of the characters `{}()[];,:."'`#=<>+-*/&|!?@`
/// separate words: text made of two parts joined by any of them gives the
/// tokens of the first part followed by the tokens of the second, as if
/// they had been tokenized apart (so `self.files` gives `self`, `files`).
pub proof fn lemma_separator_splits_tokens(a: Seq<char>, c: char, b: Seq<char>)
    requires
        char_whitespace(c) || "{}()[];,:.\"'`#=<>+-*/&|!?@"@.contains(c),
    ensures
        spec_tokenize(a + seq![c] + b) == spec_tokenize(a) + spec_tokenize(b),
{
    if !char_whitespace(c) {
        lemma_listed_is_punctuation(c);
    }
    assert(a + seq![c] + b =~= a.push(c) + b);
    lemma_split_concat(a, c, b, true);
    lemma_tokens_of_words_concat(split_on(a, true), split_on(b, true));
}

/// No character of `t` ends a word.
pub open spec fn within_word(t: Seq<char>) -> bool {
    forall|k: int| 0 <= k < t.len() ==> !is_word_separator(#[trigger] t[k])
}

/// `x` is the lower-case form of a text within a word.
pub open spec fn lowered_from_word(x: Seq<char>) -> bool {
    exists|t: Seq<char>| within_word(t) && x == #[trigger] lower_chars(t)
}

/// Every text of `ts` is the lower-case form of a text within a word.
pub open spec fn lowered_words(ts: Seq<Seq<char>>) -> bool {
    forall|j: int| 0 <= j < ts.len() ==> lowered_from_word(#[trigger] ts[j])
}

proof fn lemma_lowered_concat(a: Seq<Seq<char>>, b: Seq<Seq<char>>)
    requires
        lowered_words(a),
        lowered_words(b),
    ensures
        lowered_words(a + b),
{
    assert forall|j: int| 0 <= j < (a + b).len() implies lowered_from_word(#[trigger] (a + b)[j]) by {
        if j < a.len() {
            assert((a + b)[j] == a[j]);
        } else {
            assert((a + b)[j] == b[j - a.len()]);
        }
    }
}

proof fn lemma_keep_lowered(t: Seq<char>)
    requires
        within_word(t),
    ensures
        lowered_words(keep(t)),
{
    if encode_utf8(lower_chars(t)).len() > 1 {
        assert(keep(t)[0] == lower_chars(t));
    }
}

proof fn lemma_split_within(s: Seq<char>, words: bool)
    requires
        words || within_word(s),
    ensures
        forall|j: int| 0 <= j < split_on(s, words).len() ==> within_word(#[trigger] split_on(s, words)[j]),
    decreases s.len(),
{
    if s.len() > 0 {
        let d = s.drop_last();
        if !words {
            assert forall|k: int| 0 <= k < d.len() implies !is_word_separator(#[trigger] d[k]) by {
                assert(d[k] == s[k]);
            }
        }
        lemma_split_within(d, words);
        lemma_split_nonempty(d, words);
        let p = split_on(d, words);
        assert(s.last() == s[s.len() - 1]);
        if !separates(words, s.last()) {
            let np = p.last().push(s.last());
            assert(within_word(p[p.len() - 1]));
            assert forall|k: int| 0 <= k < np.len() implies !is_word_separator(#[trigger] np[k]) by {
                if k < p.last().len() {
                    assert(np[k] == p.last()[k]);
                }
            }
            assert forall|j: int| 0 <= j < split_on(s, words).len() implies within_word(#[trigger] split_on(s, words)[j]) by {
                if j < p.len() - 1 {
                    assert(split_on(s, words)[j] == p[j]);
                }
            }
        } else {
            assert forall|j: int| 0 <= j < split_on(s, words).len() implies within_word(#[trigger] split_on(s, words)[j]) by {
                if j < p.len() {
                    assert(split_on(s, words)[j] == p[j]);
                } else {
                    assert(split_on(s, words)[j] =~= Seq::<char>::empty());
                }
            }
        }
    }
}

proof fn lemma_keep_all_lowered(parts: Seq<Seq<char>>)
    requires
        forall|j: int| 0 <= j < parts.len() ==> within_word(#[trigger] parts[j]),
    ensures
        lowered_words(keep_all(parts)),
    decreases parts.len(),
{
    if parts.len() > 0 {
        let d = parts.drop_last();
        assert forall|j: int| 0 <= j < d.len() implies within_word(#[trigger] d[j]) by {
            assert(d[j] == parts[j]);
        }
        lemma_keep_all_lowered(d);
        assert(parts.last() == parts[parts.len() - 1]);
        lemma_keep_lowered(parts.last());
        lemma_lowered_concat(keep_all(d), keep(parts.last()));
    }
}

proof fn lemma_sub_within(w: Seq<char>, lo: int, hi: int)
    requires
        within_word(w),
        0 <= lo <= hi <= w.len(),
    ensures
        within_word(w.subrange(lo, hi)),
{
    assert forall|k: int| 0 <= k < hi - lo implies !is_word_separator(#[trigger] w.subrange(lo, hi)[k]) by {
        assert(w.subrange(lo, hi)[k] == w[lo + k]);
    }
}

proof fn lemma_camel_lowered(w: Seq<char>, i: int)
    requires
        within_word(w),
        i <= w.len(),
    ensures
        lowered_words(camel(w, i).0),
        0 <= camel(w, i).1 <= (if i < 1 { 0 } else { i - 1 }),
    decreases i,
{
    if i > 1 {
        lemma_camel_lowered(w, i - 1);
        let (t, st) = camel(w, i - 1);
        if camel_boundary(w, i - 1) {
            lemma_sub_within(w, st, i - 1);
            lemma_keep_lowered(w.subrange(st, i - 1));
            lemma_lowered_concat(t, keep(w.subrange(st, i - 1)));
        }
    }
}

proof fn lemma_words_lowered(ws: Seq<Seq<char>>)
    requires
        forall|j: int| 0 <= j < ws.len() ==> within_word(#[trigger] ws[j]),
    ensures
        lowered_words(tokens_of_words(ws)),
    decreases ws.len(),
{
    if ws.len() > 0 {
        let d = ws.drop_last();
        assert forall|j: int| 0 <= j < d.len() implies within_word(#[trigger] d[j]) by {
            assert(d[j] == ws[j]);
        }
        lemma_words_lowered(d);
        let w = ws.last();
        assert(w == ws[ws.len() - 1]);
        if w.len() == 0 {
            lemma_lowered_concat(tokens_of_words(d), seq![]);
        } else {
            let (t, st) = camel(w, w.len() as int);
            lemma_camel_lowered(w, w.len() as int);
            lemma_sub_within(w, st, w.len() as int);
            lemma_split_within(w.subrange(st, w.len() as int), false);
            lemma_keep_all_lowered(split_on(w.subrange(st, w.len() as int), false));
            lemma_lowered_concat(t, keep_all(split_on(w.subrange(st, w.len() as int), false)));
            lemma_lowered_concat(tokens_of_words(d), word_tokens(w));
        }
    }
}

/// Every token is the lower-case form of a piece of text that holds no
/// white space and none of the separators `{}()[];,:."'`#=<>+-*/&|!?@`:
/// tokens never reach across a word boundary.
pub proof fn lemma_tokens_stay_within_words(s: Seq<char>)
    ensures
        forall|j: int| 0 <= j < spec_tokenize(s).len() ==> exists|p: Seq<char>|
            #[trigger] spec_tokenize(s)[j] == lower_chars(p) && forall|k: int| 0 <= k < p.len() ==> !char_whitespace(
                #[trigger] p[k],
            ) && !"{}()[];,:.\"'`#=<>+-*/&|!?@"@.contains(p[k]),
{
    lemma_split_within(s, true);
    lemma_words_lowered(split_on(s, true));
    let ts = spec_tokenize(s);
    assert forall|j: int| 0 <= j < ts.len() implies exists|p: Seq<char>|
        #[trigger] ts[j] == lower_chars(p) && forall|k: int| 0 <= k < p.len() ==> !char_whitespace(
            #[trigger] p[k],
        ) && !"{}()[];,:.\"'`#=<>+-*/&|!?@"@.contains(p[k]) by {
        assert(lowered_from_word(ts[j]));
        let p = choose|t: Seq<char>| within_word(t) && ts[j] == #[trigger] lower_chars(t);
        assert forall|k: int| 0 <= k < p.len() implies !char_whitespace(#[trigger] p[k])
            && !"{}()[];,:.\"'`#=<>+-*/&|!?@"@.contains(p[k]) by {
            assert(!is_word_separator(p[k]));
            if "{}()[];,:.\"'`#=<>+-*/&|!?@"@.contains(p[k]) {
                lemma_listed_is_punctuation(p[k]);
            }
        }
    }
}

/// A text without white space and without any of the separators
/// `{}()[];,:."'`#=<>+-*/&|!?@`.
pub open spec fn plain_text(t: Seq<char>) -> bool {
    forall|k: int|
        0 <= k < t.len() ==> !char_whitespace(#[trigger] t[k]) && !"{}()[];,:.\"'`#=<>+-*/&|!?@"@.contains(t[k])
}

/// The lower-case form of `x` as a one-token list when it is longer than
/// one byte, else no token.
pub open spec fn lowered_if_long(x: Seq<char>) -> Seq<Seq<char>> {
    if encode_utf8(lower_chars(x)).len() >= 2 {
        seq![lower_chars(x)]
    } else {
        seq![]
    }
}

/// No position of `w` in `lo .. hi` is a lower-to-upper case change.
pub open spec fn no_case_change(w: Seq<char>, lo: int, hi: int) -> bool {
    forall|k: int| lo <= k < hi && 1 <= k < w.len() ==> !(char_uppercase(#[trigger] w[k]) && char_lowercase(w[k - 1]))
}

proof fn lemma_punctuation_is_listed(c: char)
    requires
        is_punctuation(c),
    ensures
        "{}()[];,:.\"'`#=<>+-*/&|!?@"@.contains(c),
{
    reveal_strlit("{}()[];,:.\"'`#=<>+-*/&|!?@");
    let l = "{}()[];,:.\"'`#=<>+-*/&|!?@"@;
    assert(l[0] == '{' && l[1] == '}' && l[2] == '(' && l[3] == ')' && l[4] == '[' && l[5] == ']');
    assert(l[6] == ';' && l[7] == ',' && l[8] == ':' && l[9] == '.' && l[10] == '"' && l[11] == '\'');
    assert(l[12] == '`' && l[13] == '#' && l[14] == '=' && l[15] == '<' && l[16] == '>' && l[17] == '+');
    assert(l[18] == '-' && l[19] == '*' && l[20] == '/' && l[21] == '&' && l[22] == '|' && l[23] == '!');
    assert(l[24] == '?' && l[25] == '@');
}

proof fn lemma_plain_within(t: Seq<char>)
    requires
        plain_text(t),
    ensures
        within_word(t),
{
    assert forall|k: int| 0 <= k < t.len() implies !is_word_separator(#[trigger] t[k]) by {
        if is_punctuation(t[k]) {
            lemma_punctuation_is_listed(t[k]);
        }
    }
}

proof fn lemma_split_whole(w: Seq<char>, words: bool)
    requires
        forall|k: int| 0 <= k < w.len() ==> !separates(words, #[trigger] w[k]),
    ensures
        split_on(w, words) == seq![w],
    decreases w.len(),
{
    if w.len() > 0 {
        let d = w.drop_last();
        assert forall|k: int| 0 <= k < d.len() implies !separates(words, #[trigger] d[k]) by {
            assert(d[k] == w[k]);
        }
        lemma_split_whole(d, words);
        assert(w.last() == w[w.len() - 1]);
        assert(!separates(words, w.last()));
        assert(d.push(w.last()) =~= w);
        assert(seq![d].last() == d);
        assert(seq![d].update(0, d.push(w.last())) =~= seq![w]);
    } else {
        assert(w =~= Seq::<char>::empty());
    }
}

proof fn lemma_word_alone(w: Seq<char>)
    requires
        w.len() > 0,
        within_word(w),
    ensures
        spec_tokenize(w) == word_tokens(w),
{
    lemma_split_whole(w, true);
    assert(seq![w].drop_last() =~= Seq::<Seq<char>>::empty());
    assert(seq![w].last() == w);
    assert(tokens_of_words(Seq::<Seq<char>>::empty()) =~= Seq::<Seq<char>>::empty());
    assert(Seq::<Seq<char>>::empty() + word_tokens(w) =~= word_tokens(w));
}

proof fn lemma_camel_none(w: Seq<char>, i: int)
    requires
        no_case_change(w, 1, i),
        i <= w.len(),
    ensures
        camel(w, i) == (Seq::<Seq<char>>::empty(), 0int),
    decreases i,
{
    if i > 1 {
        lemma_camel_none(w, i - 1);
        assert(!(char_uppercase(w[i - 1]) && char_lowercase(w[i - 2])));
    }
}

proof fn lemma_keep_is_lowered_if_long(x: Seq<char>)
    ensures
        keep(x) == lowered_if_long(x),
{
}

/// A plain word (no white space, no separators) without a lower-to-upper
/// case change and without underscores gives exactly one token, its
/// lower-case form, when that is longer than one byte, and none otherwise.
pub proof fn lemma_plain_word_is_one_token(w: Seq<char>)
    requires
        w.len() > 0,
        plain_text(w),
        no_case_change(w, 1, w.len() as int),
        !w.contains('_'),
    ensures
        spec_tokenize(w) == lowered_if_long(w),
{
    lemma_plain_within(w);
    lemma_word_alone(w);
    lemma_camel_none(w, w.len() as int);
    assert(w.subrange(0, w.len() as int) =~= w);
    assert forall|k: int| 0 <= k < w.len() implies !separates(false, #[trigger] w[k]) by {
        if w[k] == '_' {
            assert(w.contains('_'));
        }
    }
    lemma_split_whole(w, false);
    assert(seq![w].drop_last() =~= Seq::<Seq<char>>::empty());
    assert(seq![w].last() == w);
    assert(keep_all(Seq::<Seq<char>>::empty()) =~= Seq::<Seq<char>>::empty());
    assert(keep_all(seq![w]) =~= keep(w));
    assert(Seq::<Seq<char>>::empty() + keep(w) =~= keep(w));
}

proof fn lemma_keep_all_concat(a: Seq<Seq<char>>, b: Seq<Seq<char>>)
    ensures
        keep_all(a + b) == keep_all(a) + keep_all(b),
    decreases b.len(),
{
    if b.len() == 0 {
        assert(a + b =~= a);
        assert(keep_all(a) + Seq::<Seq<char>>::empty() =~= keep_all(a));
    } else {
        let d = b.drop_last();
        lemma_keep_all_concat(a, d);
        assert((a + b).drop_last() =~= a + d);
        assert((a + b).last() == b.last());
        assert(keep_all(a) + keep_all(d) + keep(b.last()) =~= keep_all(a) + (keep_all(d) + keep(b.last())));
    }
}

proof fn lemma_plain_word_tokens(w: Seq<char>)
    requires
        w.len() > 0,
        plain_text(w),
        no_case_change(w, 1, w.len() as int),
    ensures
        spec_tokenize(w) == keep_all(split_on(w, false)),
{
    lemma_plain_within(w);
    lemma_word_alone(w);
    lemma_camel_none(w, w.len() as int);
    assert(w.subrange(0, w.len() as int) =~= w);
    assert(Seq::<Seq<char>>::empty() + keep_all(split_on(w, false)) =~= keep_all(split_on(w, false)));
}

/// An underscore splits a plain word without case changes: the tokens of
/// `x_y` are those of `x` followed by those of `y`.
pub proof fn lemma_underscore_splits_tokens(x: Seq<char>, y: Seq<char>)
    requires
        x.len() > 0,
        y.len() > 0,
        plain_text(x + seq!['_'] + y),
        no_case_change(x + seq!['_'] + y, 1, (x.len() + 1 + y.len()) as int),
    ensures
        spec_tokenize(x + seq!['_'] + y) == spec_tokenize(x) + spec_tokenize(y),
{
    let w = x + seq!['_'] + y;
    let n = x.len() as int;
    assert forall|k: int| 0 <= k < x.len() implies !char_whitespace(#[trigger] x[k])
        && !"{}()[];,:.\"'`#=<>+-*/&|!?@"@.contains(x[k]) by {
        assert(w[k] == x[k]);
    }
    assert forall|k: int| 0 <= k < y.len() implies !char_whitespace(#[trigger] y[k])
        && !"{}()[];,:.\"'`#=<>+-*/&|!?@"@.contains(y[k]) by {
        assert(w[n + 1 + k] == y[k]);
    }
    assert forall|k: int| 1 <= k < x.len() implies !(char_uppercase(#[trigger] x[k]) && char_lowercase(x[k - 1])) by {
        assert(w[k] == x[k] && w[k - 1] == x[k - 1]);
    }
    assert forall|k: int| 1 <= k < y.len() implies !(char_uppercase(#[trigger] y[k]) && char_lowercase(y[k - 1])) by {
        assert(w[n + 1 + k] == y[k] && w[n + k] == y[k - 1]);
    }
    lemma_plain_word_tokens(w);
    lemma_plain_word_tokens(x);
    lemma_plain_word_tokens(y);
    assert(w =~= x.push('_') + y);
    lemma_split_concat(x, '_', y, false);
    lemma_keep_all_concat(split_on(x, false), split_on(y, false));
}

proof fn lemma_camel_bounds(w: Seq<char>, i: int)
    ensures
        0 <= camel(w, i).1 <= (if i < 1 { 0 } else { i - 1 }),
    decreases i,
{
    if i > 1 {
        lemma_camel_bounds(w, i - 1);
    }
}

proof fn lemma_camel_shift(x: Seq<char>, y: Seq<char>, i: int)
    requires
        x.len() > 0,
        1 <= i <= y.len(),
        no_case_change(x, 1, x.len() as int),
        char_uppercase(y[0]) && char_lowercase(x.last()),
    ensures
        camel(x + y, x.len() + i) == (keep(x) + camel(y, i).0, x.len() + camel(y, i).1),
    decreases i,
{
    let w = x + y;
    let n = x.len() as int;
    if i == 1 {
        assert forall|k: int| 1 <= k < n && 1 <= k < w.len() implies !(char_uppercase(#[trigger] w[k]) && char_lowercase(w[k - 1])) by {
            assert(w[k] == x[k] && w[k - 1] == x[k - 1]);
        }
        lemma_camel_none(w, n);
        assert(w[n] == y[0] && w[n - 1] == x.last());
        assert(w.subrange(0, n) =~= x);
        assert(Seq::<Seq<char>>::empty() + keep(x) =~= keep(x) + Seq::<Seq<char>>::empty());
    } else {
        lemma_camel_shift(x, y, i - 1);
        lemma_camel_bounds(y, i - 1);
        let (t, st) = camel(y, i - 1);
        assert(w[n + i - 1] == y[i - 1] && w[n + i - 2] == y[i - 2]);
        assert(w.subrange(n + st, n + i - 1) =~= y.subrange(st, i - 1));
        assert(keep(x) + t + keep(y.subrange(st, i - 1)) =~= keep(x) + (t + keep(y.subrange(st, i - 1))));
    }
}

/// A lower-to-upper case change splits a plain word: when `x` has no case
/// change and `y` starts a new one right after it, the tokens of `xy` are
/// the lower-case form of `x` as one token (kept whole even if it holds
/// underscores, and only when longer than one byte), then the tokens of `y`.
pub proof fn lemma_case_change_splits_tokens(x: Seq<char>, y: Seq<char>)
    requires
        x.len() > 0,
        y.len() > 0,
        plain_text(x + y),
        no_case_change(x, 1, x.len() as int),
        char_uppercase(y[0]) && char_lowercase(x.last()),
    ensures
        spec_tokenize(x + y) == lowered_if_long(x) + spec_tokenize(y),
{
    let w = x + y;
    let n = x.len() as int;
    let m = y.len() as int;
    assert forall|k: int| 0 <= k < m implies !char_whitespace(#[trigger] y[k])
        && !"{}()[];,:.\"'`#=<>+-*/&|!?@"@.contains(y[k]) by {
        assert(w[n + k] == y[k]);
    }
    lemma_plain_within(w);
    lemma_plain_within(y);
    lemma_word_alone(w);
    lemma_word_alone(y);
    lemma_camel_shift(x, y, m);
    lemma_camel_bounds(y, m);
    let (t, st) = camel(y, m);
    assert(w.len() == n + m);
    assert(w.subrange(n + st, n + m) =~= y.subrange(st, m));
    assert(keep(x) + t + keep_all(split_on(y.subrange(st, m), false)) =~= keep(x) + (t + keep_all(
        split_on(y.subrange(st, m), false),
    )));
}

/// Lexicographic order of texts by character code: a proper prefix comes
/// first.
pub open spec fn lex_lt(a: Seq<char>, b: Seq<char>) -> bool
    decreases a.len(),
{
    if a.len() == 0 {
        b.len() > 0
    } else if b.len() == 0 {
        false
    } else if a[0] != b[0] {
        (a[0] as u32) < (b[0] as u32)
    } else {
        lex_lt(a.drop_first(), b.drop_first())
    }
}

/// `lex_lt` is a strict total order.
pub proof fn lemma_lex_order(a: Seq<char>, b: Seq<char>, c: Seq<char>)
    ensures
        !lex_lt(a, a),
        lex_lt(a, b) ==> !lex_lt(b, a),
        a != b ==> lex_lt(a, b) || lex_lt(b, a),
        lex_lt(a, b) && lex_lt(b, c) ==> lex_lt(a, c),
    decreases a.len(),
{
    if a.len() > 0 {
        lemma_lex_order(a.drop_first(), a.drop_first(), a.drop_first());
        if b.len() > 0 {
            lemma_lex_order(a.drop_first(), b.drop_first(), a.drop_first());
            if c.len() > 0 {
                lemma_lex_order(a.drop_first(), b.drop_first(), c.drop_first());
            }
            if a[0] != b[0] {
                vstd::utf8::char_u32_cast(a[0], a[0] as u32);
                vstd::utf8::char_u32_cast(b[0], b[0] as u32);
                assert((a[0] as u32) != (b[0] as u32));
            } else if a != b {
                assert(a.drop_first() != b.drop_first()) by {
                    if a.drop_first() == b.drop_first() {
                        assert(a =~= seq![a[0]] + a.drop_first());
                        assert(b =~= seq![b[0]] + b.drop_first());
                    }
                }
                assert(lex_lt(a, b) == lex_lt(a.drop_first(), b.drop_first()));
                assert(lex_lt(b, a) == lex_lt(b.drop_first(), a.drop_first()));
            }
        }
    } else {
        if b.len() == 0 {
            assert(a =~= b);
        }
    }
}

/// The texts of `v` are in strictly increasing order.
pub open spec fn strictly_sorted(v: Seq<Seq<char>>) -> bool {
    forall|i: int, j: int| 0 <= i < j < v.len() ==> lex_lt(#[trigger] v[i], #[trigger] v[j])
}

fn chars_less(a: &Vec<char>, b: &Vec<char>) -> (r: bool)
    ensures
        r == lex_lt(a@, b@),
{
    let mut k: usize = 0;
    proof {
        assert(a@.skip(0) =~= a@);
        assert(b@.skip(0) =~= b@);
    }
    while k < a.len() && k < b.len() && a[k] == b[k]
        invariant
            k <= a@.len(),
            k <= b@.len(),
            a@.subrange(0, k as int) == b@.subrange(0, k as int),
            lex_lt(a@, b@) == lex_lt(a@.skip(k as int), b@.skip(k as int)),
        decreases a@.len() - k,
    {
        proof {
            assert(a@.skip(k as int).drop_first() =~= a@.skip(k as int + 1));
            assert(b@.skip(k as int).drop_first() =~= b@.skip(k as int + 1));
            assert(a@.subrange(0, k as int + 1) =~= a@.subrange(0, k as int).push(a@[k as int]));
            assert(b@.subrange(0, k as int + 1) =~= b@.subrange(0, k as int).push(b@[k as int]));
        }
        k = k + 1;
    }
    proof {
        if k < a@.len() {
            assert(a@.skip(k as int)[0] == a@[k as int]);
        }
        if k < b@.len() {
            assert(b@.skip(k as int)[0] == b@[k as int]);
        }
    }
    if k == a.len() {
        k < b.len()
    } else if k == b.len() {
        false
    } else {
        (a[k] as u32) < (b[k] as u32)
    }
}

/// Whether `a` comes before `b` in `lex_lt` order.
fn text_less(a: &String, b: &String) -> (r: bool)
    ensures
        r == lex_lt(a@, b@),
{
    let ac = chars_of(a.as_str());
    let bc = chars_of(b.as_str());
    chars_less(&ac, &bc)
}


/// The tokens of each document as texts.
pub open spec fn doc_views(docs: Seq<Vec<String>>) -> Seq<Seq<Seq<char>>> {
    docs.map_values(|d: Vec<String>| views(d@))
}

/// Whether one of the first `n` documents holds token `x`.
pub open spec fn in_docs(docs: Seq<Seq<Seq<char>>>, n: int, x: Seq<char>) -> bool
    decreases n,
{
    if n <= 0 {
        false
    } else {
        in_docs(docs, n - 1, x) || docs[n - 1].contains(x)
    }
}

/// Number of the first `n` documents that hold token `x`.
pub open spec fn docs_holding(docs: Seq<Seq<Seq<char>>>, n: int, x: Seq<char>) -> nat
    decreases n,
{
    if n <= 0 {
        0
    } else {
        docs_holding(docs, n - 1, x) + if docs[n - 1].contains(x) { 1nat } else { 0nat }
    }
}

/// Number of occurrences of token `x` in `doc`.
pub open spec fn occurrences(doc: Seq<Seq<char>>, x: Seq<char>) -> nat
    decreases doc.len(),
{
    if doc.len() == 0 {
        0
    } else {
        occurrences(doc.drop_last(), x) + if doc.last() == x { 1nat } else { 0nat }
    }
}

/// The counts behind TF-IDF vectors: the vocabulary (every token of every
/// document, once, in `lex_lt` order), for each vocabulary entry the number
/// of documents holding it, and for each document the number of
/// occurrences of each vocabulary entry.
pub struct TermStats {
    pub vocab: Vec<String>,
    pub doc_freq: Vec<usize>,
    pub counts: Vec<Vec<usize>>,
}

proof fn lemma_sorted_distinct(v: Seq<Seq<char>>, i: int, j: int)
    requires
        strictly_sorted(v),
        0 <= i < v.len(),
        0 <= j < v.len(),
        i != j,
    ensures
        v[i] != v[j],
{
    lemma_lex_order(v[i], v[j], v[j]);
    lemma_lex_order(v[j], v[i], v[i]);
}

/// Where `t` belongs in the sorted list `v`: the number of entries before
/// it, and whether the entry there is `t` itself.
fn locate(v: &Vec<String>, t: &String) -> (r: (bool, usize))
    requires
        strictly_sorted(views(v@)),
    ensures
        r.1 <= v@.len(),
        forall|i: int| 0 <= i < r.1 ==> lex_lt(#[trigger] views(v@)[i], t@),
        forall|i: int| r.1 <= i < v@.len() ==> !lex_lt(#[trigger] views(v@)[i], t@),
        r.0 == (r.1 < v@.len() && views(v@)[r.1 as int] == t@),
{
    let ghost vv = views(v@);
    let mut lo: usize = 0;
    let mut hi: usize = v.len();
    while lo < hi
        invariant
            vv == views(v@),
            strictly_sorted(vv),
            lo <= hi <= v@.len(),
            forall|i: int| 0 <= i < lo ==> lex_lt(#[trigger] vv[i], t@),
            forall|i: int| hi <= i < v@.len() ==> !lex_lt(#[trigger] vv[i], t@),
        decreases hi - lo,
    {
        let mid = lo + (hi - lo) / 2;
        if text_less(&v[mid], t) {
            proof {
                assert forall|i: int| 0 <= i < mid + 1 implies lex_lt(#[trigger] vv[i], t@) by {
                    if i < mid {
                        lemma_lex_order(vv[i], vv[mid as int], t@);
                    }
                }
            }
            lo = mid + 1;
        } else {
            proof {
                assert forall|i: int| mid <= i < v@.len() implies !lex_lt(#[trigger] vv[i], t@) by {
                    if i > mid {
                        lemma_lex_order(vv[mid as int], vv[i], t@);
                        lemma_lex_order(t@, vv[mid as int], vv[i]);
                        lemma_lex_order(vv[i], t@, vv[mid as int]);
                        lemma_lex_order(vv[mid as int], t@, t@);
                    }
                }
            }
            hi = mid;
        }
    }
    if lo < v.len() {
        let found = v[lo] == *t;
        (found, lo)
    } else {
        (false, lo)
    }
}


proof fn lemma_insert_contains(v: Seq<Seq<char>>, pos: int, t: Seq<char>, x: Seq<char>)
    requires
        0 <= pos <= v.len(),
    ensures
        v.insert(pos, t).contains(x) <==> v.contains(x) || x == t,
{
    let w = v.insert(pos, t);
    if v.contains(x) {
        let i = choose|i: int| 0 <= i < v.len() && v[i] == x;
        if i < pos {
            assert(w[i] == x);
        } else {
            assert(w[i + 1] == x);
        }
    }
    if x == t {
        assert(w[pos] == x);
    }
    if w.contains(x) {
        let i = choose|i: int| 0 <= i < w.len() && w[i] == x;
        if i < pos {
            assert(v[i] == x);
        } else if i > pos {
            assert(v[i - 1] == x);
        }
    }
}

proof fn lemma_take_contains(d: Seq<Seq<char>>, k: int, x: Seq<char>)
    requires
        0 <= k < d.len(),
    ensures
        d.take(k + 1).contains(x) <==> d.take(k).contains(x) || d[k] == x,
{
    if d.take(k + 1).contains(x) {
        let i = choose|i: int| 0 <= i < k + 1 && #[trigger] d.take(k + 1)[i] == x;
        if i < k {
            assert(d.take(k)[i] == x);
        }
    }
    if d.take(k).contains(x) {
        let i = choose|i: int| 0 <= i < k && #[trigger] d.take(k)[i] == x;
        assert(d.take(k + 1)[i] == x);
    }
    if d[k] == x {
        assert(d.take(k + 1)[k] == x);
    }
}

/// Every token of every document, once each, in `lex_lt` order.
fn build_vocab(docs: &Vec<Vec<String>>) -> (vocab: Vec<String>)
    ensures
        strictly_sorted(views(vocab@)),
        forall|x: Seq<char>| views(vocab@).contains(x) <==> in_docs(doc_views(docs@), docs@.len() as int, x),
{
    let ghost dv = doc_views(docs@);
    let mut vocab: Vec<String> = Vec::new();
    let mut d: usize = 0;
    while d < docs.len()
        invariant
            dv == doc_views(docs@),
            d <= docs@.len(),
            strictly_sorted(views(vocab@)),
            forall|x: Seq<char>| views(vocab@).contains(x) <==> in_docs(dv, d as int, x),
        decreases docs@.len() - d,
    {
        let doc = &docs[d];
        proof {
            assert(dv[d as int] == views(doc@));
            assert(views(doc@).take(0) =~= Seq::<Seq<char>>::empty());
        }
        let mut k: usize = 0;
        while k < doc.len()
            invariant
                dv == doc_views(docs@),
                d < docs@.len(),
                dv[d as int] == views(doc@),
                k <= doc@.len(),
                strictly_sorted(views(vocab@)),
                forall|x: Seq<char>| #[trigger] views(vocab@).contains(x) <==> in_docs(dv, d as int, x) || views(doc@).take(k as int).contains(x),
            decreases doc@.len() - k,
        {
            let t = &doc[k];
            let (found, pos) = locate(&vocab, t);
            let ghost before = views(vocab@);
            proof {
                assert(views(doc@)[k as int] == t@);
                assert forall|x: Seq<char>| views(doc@).take(k as int + 1).contains(x) <==> views(doc@).take(k as int).contains(x) || x == t@ by {
                    lemma_take_contains(views(doc@), k as int, x);
                }
            }
            if !found {
                vocab.insert(pos, t.clone());
                proof {
                    assert(views(vocab@) =~= before.insert(pos as int, t@));
                    assert forall|x: Seq<char>| views(vocab@).contains(x) <==> before.contains(x) || x == t@ by {
                        lemma_insert_contains(before, pos as int, t@, x);
                    }
                    assert forall|i: int, j: int| 0 <= i < j < views(vocab@).len() implies lex_lt(#[trigger] views(vocab@)[i], #[trigger] views(vocab@)[j]) by {
                        let w = views(vocab@);
                        if j < pos {
                            assert(w[i] == before[i] && w[j] == before[j]);
                        } else if j == pos {
                            assert(w[i] == before[i]);
                        } else if i > pos {
                            assert(w[i] == before[i - 1] && w[j] == before[j - 1]);
                        } else if i == pos {
                            assert(w[j] == before[j - 1]);
                            lemma_lex_order(before[j - 1], t@, t@);
                        } else {
                            assert(w[i] == before[i] && w[j] == before[j - 1]);
                        }
                    }
                }
            } else {
                proof {
                    assert(before.contains(t@)) by {
                        assert(before[pos as int] == t@);
                    }
                }
            }
            proof {
                assert forall|x: Seq<char>| #[trigger] views(vocab@).contains(x) <==> in_docs(dv, d as int, x) || views(doc@).take(k as int + 1).contains(x) by {
                    assert(before.contains(x) <==> in_docs(dv, d as int, x) || views(doc@).take(k as int).contains(x));
                    lemma_take_contains(views(doc@), k as int, x);
                    if !found {
                        lemma_insert_contains(before, pos as int, t@, x);
                    }
                }
            }
            k = k + 1;
        }
        proof {
            assert(views(doc@).take(doc@.len() as int) =~= views(doc@));
            assert forall|x: Seq<char>| views(vocab@).contains(x) <==> in_docs(dv, d as int + 1, x) by {
                assert(in_docs(dv, d as int + 1, x) == (in_docs(dv, d as int, x) || dv[d as int].contains(x)));
            }
        }
        d = d + 1;
    }
    vocab
}

proof fn lemma_occurrences_positive(doc: Seq<Seq<char>>, x: Seq<char>)
    ensures
        occurrences(doc, x) > 0 <==> doc.contains(x),
        occurrences(doc, x) <= doc.len(),
    decreases doc.len(),
{
    if doc.len() > 0 {
        lemma_occurrences_positive(doc.drop_last(), x);
        if doc.drop_last().contains(x) {
            let i = choose|i: int| 0 <= i < doc.drop_last().len() && doc.drop_last()[i] == x;
            assert(doc[i] == x);
        }
        if doc.contains(x) {
            let i = choose|i: int| 0 <= i < doc.len() && doc[i] == x;
            if i < doc.len() - 1 {
                assert(doc.drop_last()[i] == x);
            }
        }
        if doc.last() == x {
            assert(doc[doc.len() - 1] == x);
        }
    }
}

/// For each vocabulary entry, the number of its occurrences in `doc`.
fn count_row(vocab: &Vec<String>, doc: &Vec<String>) -> (row: Vec<usize>)
    requires
        strictly_sorted(views(vocab@)),
        forall|k: int| 0 <= k < doc@.len() ==> views(vocab@).contains(#[trigger] views(doc@)[k]),
    ensures
        row@.len() == vocab@.len(),
        forall|v: int| 0 <= v < vocab@.len() ==> #[trigger] row@[v] == occurrences(views(doc@), views(vocab@)[v]),
{
    let ghost vv = views(vocab@);
    let ghost dv = views(doc@);
    let mut row: Vec<usize> = Vec::new();
    let mut v: usize = 0;
    while v < vocab.len()
        invariant
            v <= vocab@.len(),
            row@.len() == v,
            forall|q: int| 0 <= q < v ==> #[trigger] row@[q] == 0,
        decreases vocab@.len() - v,
    {
        row.push(0);
        v = v + 1;
    }
    let mut k: usize = 0;
    proof {
        assert(dv.take(0) =~= Seq::<Seq<char>>::empty());
    }
    while k < doc.len()
        invariant
            vv == views(vocab@),
            dv == views(doc@),
            strictly_sorted(vv),
            forall|q: int| 0 <= q < doc@.len() ==> vv.contains(#[trigger] dv[q]),
            k <= doc@.len(),
            row@.len() == vocab@.len(),
            forall|q: int| 0 <= q < vocab@.len() ==> #[trigger] row@[q] == occurrences(dv.take(k as int), vv[q]),
        decreases doc@.len() - k,
    {
        let t = &doc[k];
        let (found, pos) = locate(vocab, t);
        proof {
            assert(dv[k as int] == t@);
            assert(vv.contains(t@));
            if !found {
                let i = choose|i: int| 0 <= i < vv.len() && vv[i] == t@;
                if i < pos {
                    lemma_lex_order(t@, t@, t@);
                } else {
                    lemma_lex_order(t@, t@, t@);
                }
                assert(false);
            }
            assert(dv.take(k as int + 1).drop_last() =~= dv.take(k as int));
            lemma_occurrences_positive(dv.take(k as int), t@);
        }
        let ghost before = row@;
        let cur = row[pos];
        row.set(pos, cur + 1);
        proof {
            assert forall|q: int| 0 <= q < vocab@.len() implies #[trigger] row@[q] == occurrences(dv.take(k as int + 1), vv[q]) by {
                if q != pos {
                    lemma_sorted_distinct(vv, q, pos as int);
                    assert(row@[q] == before[q]);
                }
            }
        }
        k = k + 1;
    }
    proof {
        assert(dv.take(doc@.len() as int) =~= dv);
    }
    row
}


/// A token is in one of the first `n` documents exactly when some document
/// before `n` holds it.
pub proof fn lemma_in_docs_exists(docs: Seq<Seq<Seq<char>>>, n: int, x: Seq<char>)
    requires
        0 <= n <= docs.len(),
    ensures
        in_docs(docs, n, x) <==> exists|d: int| 0 <= d < n && #[trigger] docs[d].contains(x),
    decreases n,
{
    if n > 0 {
        lemma_in_docs_exists(docs, n - 1, x);
        if in_docs(docs, n - 1, x) {
            let d = choose|d: int| 0 <= d < n - 1 && #[trigger] docs[d].contains(x);
            assert(0 <= d < n && docs[d].contains(x));
        }
        if exists|d: int| 0 <= d < n && #[trigger] docs[d].contains(x) {
            let d = choose|d: int| 0 <= d < n && #[trigger] docs[d].contains(x);
            if d < n - 1 {
                assert(0 <= d < n - 1 && docs[d].contains(x));
            }
        }
    }
}

/// Every vocabulary entry is held by at least one document and by at most
/// all of them.
pub proof fn lemma_doc_freq_bounds(docs: Seq<Seq<Seq<char>>>, n: int, x: Seq<char>)
    requires
        0 <= n <= docs.len(),
    ensures
        docs_holding(docs, n, x) <= n,
        docs_holding(docs, n, x) > 0 <==> in_docs(docs, n, x),
    decreases n,
{
    if n > 0 {
        lemma_doc_freq_bounds(docs, n - 1, x);
    }
}

/// The term counts of a set of tokenized documents (`docs[d]` holds the
/// tokens of document `d` in order): the sorted vocabulary of all their
/// tokens, how many documents hold each vocabulary entry, and how often each
/// document holds each entry.
pub fn term_statistics(docs: &Vec<Vec<String>>) -> (st: TermStats)
    ensures
        strictly_sorted(views(st.vocab@)),
        forall|x: Seq<char>|
            views(st.vocab@).contains(x) <==> in_docs(doc_views(docs@), docs@.len() as int, x),
        st.doc_freq@.len() == st.vocab@.len(),
        forall|v: int|
            0 <= v < st.vocab@.len() ==> #[trigger] st.doc_freq@[v] == docs_holding(
                doc_views(docs@),
                docs@.len() as int,
                views(st.vocab@)[v],
            ),
        st.counts@.len() == docs@.len(),
        forall|d: int| 0 <= d < docs@.len() ==> (#[trigger] st.counts@[d])@.len() == st.vocab@.len(),
        forall|d: int, v: int|
            0 <= d < docs@.len() && 0 <= v < st.vocab@.len() ==> #[trigger] st.counts@[d]@[v]
                == occurrences(doc_views(docs@)[d], views(st.vocab@)[v]),
{
    let ghost dv = doc_views(docs@);
    let vocab = build_vocab(docs);
    let ghost vv = views(vocab@);
    let mut counts: Vec<Vec<usize>> = Vec::new();
    let mut doc_freq: Vec<usize> = Vec::new();
    let mut v: usize = 0;
    while v < vocab.len()
        invariant
            v <= vocab@.len(),
            doc_freq@.len() == v,
            forall|q: int| 0 <= q < v ==> #[trigger] doc_freq@[q] == 0,
        decreases vocab@.len() - v,
    {
        doc_freq.push(0);
        v = v + 1;
    }
    let mut d: usize = 0;
    while d < docs.len()
        invariant
            dv == doc_views(docs@),
            vv == views(vocab@),
            strictly_sorted(vv),
            forall|x: Seq<char>| vv.contains(x) <==> in_docs(dv, docs@.len() as int, x),
            d <= docs@.len(),
            counts@.len() == d,
            forall|e: int| 0 <= e < d ==> (#[trigger] counts@[e])@.len() == vocab@.len(),
            forall|e: int, q: int|
                0 <= e < d && 0 <= q < vocab@.len() ==> #[trigger] counts@[e]@[q] == occurrences(dv[e], vv[q]),
            doc_freq@.len() == vocab@.len(),
            forall|q: int| 0 <= q < vocab@.len() ==> #[trigger] doc_freq@[q] == docs_holding(dv, d as int, vv[q]),
        decreases docs@.len() - d,
    {
        let doc = &docs[d];
        proof {
            assert(dv[d as int] == views(doc@));
            assert forall|k: int| 0 <= k < doc@.len() implies vv.contains(#[trigger] views(doc@)[k]) by {
                let x = views(doc@)[k];
                assert(dv[d as int].contains(x)) by {
                    assert(dv[d as int][k] == x);
                }
                lemma_in_docs_exists(dv, docs@.len() as int, x);
            }
        }
        let row = count_row(&vocab, doc);
        let mut q: usize = 0;
        while q < vocab.len()
            invariant
                dv == doc_views(docs@),
                vv == views(vocab@),
                d < docs@.len(),
                dv[d as int] == views(doc@),
                row@.len() == vocab@.len(),
                forall|r: int| 0 <= r < vocab@.len() ==> #[trigger] row@[r] == occurrences(views(doc@), vv[r]),
                q <= vocab@.len(),
                doc_freq@.len() == vocab@.len(),
                forall|r: int| 0 <= r < q ==> #[trigger] doc_freq@[r] == docs_holding(dv, d as int + 1, vv[r]),
                forall|r: int| q <= r < vocab@.len() ==> #[trigger] doc_freq@[r] == docs_holding(dv, d as int, vv[r]),
            decreases vocab@.len() - q,
        {
            proof {
                assert(dv.len() == docs@.len());
                lemma_occurrences_positive(views(doc@), vv[q as int]);
                lemma_doc_freq_bounds(dv, d as int, vv[q as int]);
                assert(docs_holding(dv, d as int + 1, vv[q as int]) == docs_holding(dv, d as int, vv[q as int]) + if dv[d as int].contains(vv[q as int]) { 1nat } else { 0nat });
            }
            if row[q] > 0 {
                let cur = doc_freq[q];
                proof {
                    assert(cur == docs_holding(dv, d as int, vv[q as int]));
                    assert(cur <= d);
                    assert(d < docs.len());
                }
                doc_freq.set(q, cur + 1);
            }
            q = q + 1;
        }
        counts.push(row);
        d = d + 1;
    }
    TermStats { vocab, doc_freq, counts }
}


/// The largest count of a document's row, or 1 when the row is empty or all
/// zero: the divisor that normalizes its term frequencies.
pub fn peak_count(row: &Vec<usize>) -> (m: usize)
    ensures
        m >= 1,
        forall|v: int| 0 <= v < row@.len() ==> #[trigger] row@[v] <= m,
        m == 1 || exists|v: int| 0 <= v < row@.len() && #[trigger] row@[v] == m,
{
    let mut m: usize = 1;
    let mut v: usize = 0;
    while v < row.len()
        invariant
            v <= row@.len(),
            m >= 1,
            forall|q: int| 0 <= q < v ==> #[trigger] row@[q] <= m,
            m == 1 || exists|q: int| 0 <= q < v && #[trigger] row@[q] == m,
        decreases row@.len() - v,
    {
        if row[v] > m {
            m = row[v];
        }
        v = v + 1;
    }
    m
}

} // verus!
