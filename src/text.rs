use vstd::prelude::*;
use vstd::string::*;

verus! {

/// `s` cut at every `sep`, empty pieces included.
pub open spec fn split_char(s: Seq<char>, sep: char) -> Seq<Seq<char>>
    decreases s.len(),
{
    if s.len() == 0 {
        seq![Seq::<char>::empty()]
    } else {
        let rest = split_char(s.drop_first(), sep);
        if s[0] == sep {
            seq![Seq::<char>::empty()] + rest
        } else {
            rest.update(0, seq![s[0]] + rest[0])
        }
    }
}

/// `s` cut at every space, empty pieces included.
pub open spec fn split_spaces(s: Seq<char>) -> Seq<Seq<char>> {
    split_char(s, ' ')
}

/// Each piece's length plus one for the separator after it, summed.
pub open spec fn pieces_len(ws: Seq<Seq<char>>) -> nat
    decreases ws.len(),
{
    if ws.len() == 0 {
        0
    } else {
        ws[0].len() + 1 + pieces_len(ws.drop_first())
    }
}

/// Splitting never yields fewer than one piece, and the pieces with their
/// separators make up the whole string.
pub proof fn lemma_split_char_len(s: Seq<char>, sep: char)
    ensures
        1 <= split_char(s, sep).len() <= s.len() + 1,
        pieces_len(split_char(s, sep)) == s.len() + 1,
    decreases s.len(),
{
    if s.len() > 0 {
        let rest = split_char(s.drop_first(), sep);
        lemma_split_char_len(s.drop_first(), sep);
        if s[0] != sep {
            let u = rest.update(0, seq![s[0]] + rest[0]);
            assert(u.drop_first() =~= rest.drop_first());
            assert(u[0].len() == rest[0].len() + 1);
            assert(pieces_len(rest) == rest[0].len() + 1 + pieces_len(rest.drop_first()));
        } else {
            let u = seq![Seq::<char>::empty()] + rest;
            assert(u.drop_first() =~= rest);
            assert(u[0].len() == 0);
        }
    } else {
        let u = seq![Seq::<char>::empty()];
        assert(u.drop_first() =~= Seq::<Seq<char>>::empty());
        reveal_with_fuel(pieces_len, 2);
    }
}

/// Splitting on spaces never yields fewer than one piece, nor more than one
/// piece per character plus one.
pub proof fn lemma_split_len(s: Seq<char>)
    ensures
        1 <= split_spaces(s).len() <= s.len() + 1,
{
    lemma_split_char_len(s, ' ');
}

/// `w` holds no space.
pub open spec fn no_space(w: Seq<char>) -> bool {
    forall|i: int| 0 <= i < w.len() ==> w[i] != ' '
}

/// No piece of a split holds the separator.
pub proof fn lemma_split_pieces(s: Seq<char>, sep: char)
    ensures
        forall|i: int|
            0 <= i < split_char(s, sep).len() ==> forall|j: int|
                0 <= j < (#[trigger] split_char(s, sep)[i]).len() ==> split_char(s, sep)[i][j] != sep,
    decreases s.len(),
{
    if s.len() > 0 {
        lemma_split_char_len(s.drop_first(), sep);
        lemma_split_pieces(s.drop_first(), sep);
        let rest = split_char(s.drop_first(), sep);
        if s[0] != sep {
            let u = rest.update(0, seq![s[0]] + rest[0]);
            assert forall|i: int| 0 <= i < u.len() implies forall|j: int|
                0 <= j < (#[trigger] u[i]).len() ==> u[i][j] != sep by {
                if i == 0 {
                    assert forall|j: int| 0 <= j < u[0].len() implies u[0][j] != sep by {
                        if j > 0 {
                            assert(u[0][j] == rest[0][j - 1]);
                        }
                    }
                }
            }
        } else {
            let u = seq![Seq::<char>::empty()] + rest;
            assert forall|i: int| 0 <= i < u.len() implies forall|j: int|
                0 <= j < (#[trigger] u[i]).len() ==> u[i][j] != sep by {
                if i > 0 {
                    assert(u[i] == rest[i - 1]);
                }
            }
        }
    }
}

/// A string without the separator is one piece.
proof fn lemma_split_single(y: Seq<char>, sep: char)
    requires
        forall|i: int| 0 <= i < y.len() ==> y[i] != sep,
    ensures
        split_char(y, sep) == seq![y],
    decreases y.len(),
{
    if y.len() > 0 {
        lemma_split_single(y.drop_first(), sep);
        assert(seq![y[0]] + y.drop_first() =~= y);
        assert(seq![y.drop_first()].update(0, seq![y[0]] + y.drop_first()) =~= seq![y]);
    } else {
        assert(y =~= Seq::<char>::empty());
    }
}

/// Splitting `x`, a separator and `y` gives the pieces of `x` then those of `y`.
proof fn lemma_split_concat(x: Seq<char>, y: Seq<char>, sep: char)
    ensures
        split_char(x + seq![sep] + y, sep) == split_char(x, sep) + split_char(y, sep),
    decreases x.len(),
{
    let z = x + seq![sep] + y;
    if x.len() == 0 {
        assert(z =~= seq![sep] + y);
        assert(z.drop_first() =~= y);
    } else {
        assert(z.drop_first() =~= x.drop_first() + seq![sep] + y);
        lemma_split_concat(x.drop_first(), y, sep);
        lemma_split_char_len(x.drop_first(), sep);
        let a = split_char(x.drop_first(), sep);
        let b = split_char(y, sep);
        if x[0] != sep {
            assert((a + b).update(0, seq![x[0]] + (a + b)[0]) =~= a.update(0, seq![x[0]] + a[0]) + b);
        } else {
            assert(seq![Seq::<char>::empty()] + (a + b) =~= (seq![Seq::<char>::empty()] + a) + b);
        }
    }
}

/// Words without spaces joined with single spaces split back into the same
/// words.
pub proof fn lemma_split_join(ws: Seq<Seq<char>>)
    requires
        ws.len() >= 1,
        forall|i: int| 0 <= i < ws.len() ==> no_space(#[trigger] ws[i]),
    ensures
        split_spaces(join_spaces(ws)) == ws,
    decreases ws.len(),
{
    if ws.len() == 1 {
        lemma_split_single(ws[0], ' ');
        assert(seq![ws[0]] =~= ws);
    } else {
        let init = ws.drop_last();
        assert forall|i: int| 0 <= i < init.len() implies no_space(#[trigger] init[i]) by {
            assert(init[i] == ws[i]);
        }
        lemma_split_join(init);
        assert(no_space(ws[ws.len() - 1]));
        lemma_split_single(ws.last(), ' ');
        lemma_split_concat(join_spaces(init), ws.last(), ' ');
        assert(init + seq![ws.last()] =~= ws);
    }
}

/// The pieces joined back with single spaces.
pub open spec fn join_spaces(ws: Seq<Seq<char>>) -> Seq<char>
    decreases ws.len(),
{
    if ws.len() == 0 {
        Seq::empty()
    } else if ws.len() == 1 {
        ws[0]
    } else {
        join_spaces(ws.drop_last()) + seq![' '] + ws.last()
    }
}

/// What `str::to_lowercase` makes of a string.
pub uninterp spec fn lower_of(s: Seq<char>) -> Seq<char>;

/// Relies on `str::split` with a `char` pattern: the pieces between
/// separators, in order, empty ones included.
#[verifier::external_body]
pub(crate) fn split_at_char(s: &str, sep: char) -> (r: Vec<String>)
    ensures
        r@.len() == split_char(s@, sep).len(),
        forall|i: int| 0 <= i < r@.len() ==> #[trigger] r@[i]@ == split_char(s@, sep)[i],
{
    s.split(sep).map(String::from).collect()
}

/// The words of `s`: the pieces between single spaces.
pub(crate) fn split_words(s: &str) -> (r: Vec<String>)
    ensures
        r@.len() == split_spaces(s@).len(),
        forall|i: int| 0 <= i < r@.len() ==> #[trigger] r@[i]@ == split_spaces(s@)[i],
{
    split_at_char(s, ' ')
}

/// Relies on `str::starts_with` with a `&str` pattern.
#[verifier::external_body]
pub(crate) fn has_prefix(s: &str, p: &str) -> (r: bool)
    ensures
        r == (p@.len() <= s@.len() && s@.subrange(0, p@.len() as int) == p@),
{
    s.starts_with(p)
}

/// Relies on `str::to_lowercase`: the result depends on the characters alone.
#[verifier::external_body]
pub(crate) fn lowercase(s: &str) -> (r: String)
    ensures
        r@ == lower_of(s@),
{
    s.to_lowercase()
}

/// `c` is `d` once ASCII upper case is folded to lower case.
pub open spec fn folds_to(c: char, d: char) -> bool {
    c == d || ('A' <= c <= 'Z' && c as u32 + 32 == d as u32)
}

/// `w` equals the lower-case `d` ignoring ASCII case.
pub open spec fn folds_eq(w: Seq<char>, d: Seq<char>) -> bool {
    w.len() == d.len() && forall|i: int| 0 <= i < w.len() ==> folds_to(#[trigger] w[i], d[i])
}

/// `w` ends with the lower-case `d` ignoring ASCII case.
pub open spec fn folds_ends(w: Seq<char>, d: Seq<char>) -> bool {
    w.len() >= d.len() && folds_eq(w.subrange(w.len() - d.len(), w.len() as int), d)
}

/// Function words that read badly at the end of a reply.
pub open spec fn denied_words() -> Seq<&'static str> {
    seq![
        "about", "as", "from", "a", "he", "be", "to", "wanted", "want", "has", "get", "says",
        "most", "mostly", "got", "she", "just", "we", "they", "the", "of", "or", "i", "ur",
        "with", "your", "gonna", "my", "their", "and", "it's", "its", "but", "ima", "what's",
        "whats", "wheres", "where's", "whos", "who's", "an", "it", "our", "hes", "he's",
        "thats", "that's", "also", "theres", "there's", "ive", "by", "theyre",
    ]
}

/// Endings that read badly at the end of a reply.
pub open spec fn denied_endings() -> Seq<&'static str> {
    seq![",", "&", "-", "'re", "'ll", "'d", "'ve"]
}

/// A word may end a reply unless, ignoring ASCII case, it is a denied word or
/// ends with a denied ending.
pub open spec fn valid_end(w: Seq<char>) -> bool {
    &&& !exists|i: int| 0 <= i < denied_words().len() && folds_eq(w, #[trigger] denied_words()[i]@)
    &&& !exists|j: int|
        0 <= j < denied_endings().len() && folds_ends(w, #[trigger] denied_endings()[j]@)
}

fn fold_char(c: char, d: char) -> (r: bool)
    ensures
        r == folds_to(c, d),
{
    c == d || ('A' <= c && c <= 'Z' && c as u32 + 32 == d as u32)
}

/// Whether `w` from character `from` on equals `d` ignoring ASCII case.
fn tail_folds(w: &str, from: usize, d: &str) -> (r: bool)
    requires
        from <= w@.len(),
    ensures
        r == folds_eq(w@.subrange(from as int, w@.len() as int), d@),
{
    let wl = w.unicode_len();
    let dl = d.unicode_len();
    if wl - from != dl {
        return false;
    }
    let ghost t = w@.subrange(from as int, w@.len() as int);
    let mut i: usize = 0;
    while i < dl
        invariant
            wl == w@.len(),
            dl == d@.len(),
            t == w@.subrange(from as int, w@.len() as int),
            t.len() == dl,
            i <= dl,
            from <= wl,
            forall|j: int| 0 <= j < i ==> folds_to(#[trigger] t[j], d@[j]),
        decreases dl - i,
    {
        if !fold_char(w.get_char(from + i), d.get_char(i)) {
            assert(!folds_to(t[i as int], d@[i as int]));
            return false;
        }
        i = i + 1;
    }
    true
}

/// Whether `word` may end a reply: not a denied function word, and no denied
/// ending, ignoring ASCII case.
pub fn is_valid_end(word: &str) -> (r: bool)
    ensures
        r == valid_end(word@),
{
    let words: Vec<&str> = vec![
        "about", "as", "from", "a", "he", "be", "to", "wanted", "want", "has", "get", "says",
        "most", "mostly", "got", "she", "just", "we", "they", "the", "of", "or", "i", "ur",
        "with", "your", "gonna", "my", "their", "and", "it's", "its", "but", "ima", "what's",
        "whats", "wheres", "where's", "whos", "who's", "an", "it", "our", "hes", "he's",
        "thats", "that's", "also", "theres", "there's", "ive", "by", "theyre",
    ];
    let endings: Vec<&str> = vec![",", "&", "-", "'re", "'ll", "'d", "'ve"];
    assert(words@ == denied_words());
    assert(endings@ == denied_endings());
    let wl = word.unicode_len();
    assert(word@.subrange(0, wl as int) =~= word@);
    let mut i: usize = 0;
    while i < words.len()
        invariant
            words@ == denied_words(),
            wl == word@.len(),
            i <= words@.len(),
            forall|j: int| 0 <= j < i ==> !folds_eq(word@, #[trigger] denied_words()[j]@),
        decreases words@.len() - i,
    {
        if tail_folds(word, 0, words[i]) {
            assert(word@.subrange(0, wl as int) =~= word@);
            return false;
        }
        assert(word@.subrange(0, wl as int) =~= word@);
        i = i + 1;
    }
    let mut j: usize = 0;
    while j < endings.len()
        invariant
            words@ == denied_words(),
            endings@ == denied_endings(),
            wl == word@.len(),
            j <= endings@.len(),
            forall|k: int| 0 <= k < denied_words().len() ==> !folds_eq(word@, #[trigger] denied_words()[k]@),
            forall|k: int| 0 <= k < j ==> !folds_ends(word@, #[trigger] denied_endings()[k]@),
        decreases endings@.len() - j,
    {
        let el = endings[j].unicode_len();
        if el <= wl && tail_folds(word, wl - el, endings[j]) {
            return false;
        }
        j = j + 1;
    }
    true
}

} // verus!
