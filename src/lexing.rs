//! Splitting raw text into lowercase words.
use vstd::prelude::*;

verus! {

/// What `str::to_lowercase` makes of a string.
pub uninterp spec fn lower_of(s: Seq<char>) -> Seq<char>;

/// Relies on `str::to_lowercase`: the result depends on the characters alone,
/// and the empty string stays empty.
#[verifier::external_body]
fn lowercase(s: &str) -> (r: String)
    ensures
        r@ == lower_of(s@),
        s@.len() == 0 ==> r@.len() == 0,
{
    s.to_lowercase()
}

/// Relies on `str::chars`: the characters of the string, in order.
#[verifier::external_body]
fn chars_of(s: &str) -> (r: Vec<char>)
    ensures
        r@ == s@,
{
    s.chars().collect()
}

/// Relies on `String: FromIterator<char>`: the string of the given characters.
#[verifier::external_body]
fn string_of(cs: &Vec<char>) -> (r: String)
    ensures
        r@ == cs@,
{
    cs.iter().collect()
}

/// The characters that separate words.
pub open spec fn is_delimiter(c: char) -> bool {
    c == '\'' || c == '.' || c == ')' || c == '(' || c == '`' || c == ',' || c == '"' || c == ' '
        || c == '\n'
}

/// The characters at which `my_split` cuts.
pub open spec fn is_piece_delimiter(c: char) -> bool {
    c == '\'' || c == ',' || c == ' ' || c == '\n'
}

/// The characters of `s` after its last character satisfying `delim`.
pub open spec fn trailing_run(s: Seq<char>, delim: spec_fn(char) -> bool) -> Seq<char>
    decreases s.len(),
{
    if s.len() == 0 {
        seq![]
    } else if delim(s.last()) {
        seq![]
    } else {
        trailing_run(s.drop_last(), delim).push(s.last())
    }
}

/// The word still open at the end of `s`.
pub open spec fn open_word(s: Seq<char>) -> Seq<char> {
    trailing_run(s, |c: char| is_delimiter(c))
}

/// The non-empty words of `s` that a delimiter has already closed.
pub open spec fn closed_words(s: Seq<char>) -> Seq<Seq<char>>
    decreases s.len(),
{
    if s.len() == 0 {
        seq![]
    } else {
        let p = s.drop_last();
        let w = open_word(p);
        if is_delimiter(s.last()) && w.len() > 0 {
            closed_words(p).push(w)
        } else {
            closed_words(p)
        }
    }
}

/// The words of `s`: its maximal runs of non-delimiter characters, left to right.
pub open spec fn words(s: Seq<char>) -> Seq<Seq<char>> {
    let w = open_word(s);
    if w.len() > 0 {
        closed_words(s).push(w)
    } else {
        closed_words(s)
    }
}

/// The pieces of `s` closed by a piece delimiter, empty ones included; what
/// follows the last delimiter is not among them.
pub open spec fn closed_pieces(s: Seq<char>) -> Seq<Seq<char>>
    decreases s.len(),
{
    if s.len() == 0 {
        seq![]
    } else {
        let p = s.drop_last();
        if is_piece_delimiter(s.last()) {
            closed_pieces(p).push(trailing_run(p, |c: char| is_piece_delimiter(c)))
        } else {
            closed_pieces(p)
        }
    }
}

/// The views of a sequence of strings.
pub open spec fn views_of(v: Seq<String>) -> Seq<Seq<char>> {
    v.map_values(|w: String| w@)
}

fn is_delimiter_char(c: char) -> (r: bool)
    ensures
        r == is_delimiter(c),
{
    c == '\'' || c == '.' || c == ')' || c == '(' || c == '`' || c == ',' || c == '"' || c == ' '
        || c == '\n'
}

fn is_piece_delimiter_char(c: char) -> (r: bool)
    ensures
        r == is_piece_delimiter(c),
{
    c == '\'' || c == ',' || c == ' ' || c == '\n'
}

proof fn lemma_word_count(s: Seq<char>)
    ensures
        2 * closed_words(s).len() + (if open_word(s).len() > 0 {
            1int
        } else {
            0int
        }) <= s.len(),
        2 * words(s).len() <= s.len() + 1,
    decreases s.len(),
{
    if s.len() > 0 {
        let p = s.drop_last();
        lemma_word_count(p);
        if !is_delimiter(s.last()) {
            assert(open_word(s).len() > 0);
        }
    }
}

/// Splits `text` into its words: the maximal runs of characters that are none
/// of `' . ) ( ` , "`, space and newline. The text is taken as it is.
pub fn split_words_of(text: &str) -> (r: Vec<String>)
    ensures
        views_of(r@) == words(text@),
        text@.len() <= usize::MAX,
        2 * r@.len() <= text@.len() + 1,
{
    let cs = chars_of(text);
    let ghost s = cs@;
    let mut result: Vec<String> = Vec::new();
    let mut current: Vec<char> = Vec::new();
    let mut i: usize = 0;
    while i < cs.len()
        invariant
            s == cs@,
            i <= cs.len(),
            views_of(result@) == closed_words(s.take(i as int)),
            current@ == open_word(s.take(i as int)),
        decreases cs.len() - i,
    {
        let c = cs[i];
        proof {
            assert(s.take(i + 1).drop_last() == s.take(i as int));
            assert(s.take(i + 1).last() == c);
        }
        if is_delimiter_char(c) {
            if current.len() > 0 {
                let w = string_of(&current);
                let ghost prev = result@;
                result.push(w);
                assert(views_of(result@) =~= views_of(prev).push(current@));
            }
            current = Vec::new();
        } else {
            current.push(c);
        }
        i = i + 1;
    }
    proof {
        assert(s.take(cs.len() as int) == s);
        lemma_word_count(s);
    }
    if current.len() > 0 {
        let w = string_of(&current);
        let ghost prev = result@;
        result.push(w);
        assert(views_of(result@) =~= views_of(prev).push(current@));
    }
    result
}

/// Lowercases `input` and splits it into its words (see `split_words_of`).
pub fn split_into_words(input: &str) -> (r: Vec<String>)
    ensures
        views_of(r@) == words(lower_of(input@)),
        input@.len() == 0 ==> r@.len() == 0,
        lower_of(input@).len() <= usize::MAX,
        2 * r@.len() <= lower_of(input@).len() + 1,
{
    let lowered = lowercase(input);
    split_words_of(lowered.as_str())
}

/// Cuts `text` at each of `'`, `,`, space and newline. Every cut yields a
/// piece, empty ones included; the text after the last cut is dropped. The
/// text is taken as it is.
pub fn split_pieces_of(text: &str) -> (r: Vec<String>)
    ensures
        views_of(r@) == closed_pieces(text@),
{
    let cs = chars_of(text);
    let ghost s = cs@;
    let mut result: Vec<String> = Vec::new();
    let mut current: Vec<char> = Vec::new();
    let mut i: usize = 0;
    while i < cs.len()
        invariant
            s == cs@,
            i <= cs.len(),
            views_of(result@) == closed_pieces(s.take(i as int)),
            current@ == trailing_run(s.take(i as int), |c: char| is_piece_delimiter(c)),
        decreases cs.len() - i,
    {
        let c = cs[i];
        proof {
            assert(s.take(i + 1).drop_last() == s.take(i as int));
            assert(s.take(i + 1).last() == c);
        }
        if is_piece_delimiter_char(c) {
            let w = string_of(&current);
            let ghost prev = result@;
            result.push(w);
            assert(views_of(result@) =~= views_of(prev).push(current@));
            current = Vec::new();
        } else {
            current.push(c);
        }
        i = i + 1;
    }
    proof {
        assert(s.take(cs.len() as int) == s);
    }
    result
}

/// Lowercases `input` and cuts it into pieces (see `split_pieces_of`).
pub fn my_split(input: &str) -> (r: Vec<String>)
    ensures
        views_of(r@) == closed_pieces(lower_of(input@)),
{
    let lowered = lowercase(input);
    split_pieces_of(lowered.as_str())
}

/// Splits raw text into its lowercase words (see `split_into_words`).
pub fn tokenize(text: &str) -> (r: Vec<String>)
    ensures
        views_of(r@) == words(lower_of(text@)),
        text@.len() == 0 ==> r@.len() == 0,
        lower_of(text@).len() <= usize::MAX,
        2 * r@.len() <= lower_of(text@).len() + 1,
{
    split_into_words(text)
}

/// A word is clean when it is non-empty and holds no delimiter.
pub open spec fn clean_word(w: Seq<char>) -> bool {
    w.len() > 0 && forall|j: int| 0 <= j < w.len() ==> !is_delimiter(#[trigger] w[j])
}

/// The words joined with single spaces.
pub open spec fn joined(ws: Seq<Seq<char>>) -> Seq<char>
    decreases ws.len(),
{
    if ws.len() == 0 {
        seq![]
    } else if ws.len() == 1 {
        ws[0]
    } else {
        joined(ws.drop_last()) + seq![' '] + ws.last()
    }
}

proof fn lemma_trailing_run_clean(s: Seq<char>)
    ensures
        forall|j: int| 0 <= j < open_word(s).len() ==> !is_delimiter(#[trigger] open_word(s)[j]),
    decreases s.len(),
{
    if s.len() > 0 && !is_delimiter(s.last()) {
        lemma_trailing_run_clean(s.drop_last());
        assert(open_word(s) == open_word(s.drop_last()).push(s.last()));
    }
}

proof fn lemma_closed_words_clean(s: Seq<char>)
    ensures
        forall|i: int| 0 <= i < closed_words(s).len() ==> clean_word(#[trigger] closed_words(s)[i]),
    decreases s.len(),
{
    if s.len() > 0 {
        let p = s.drop_last();
        lemma_closed_words_clean(p);
        lemma_trailing_run_clean(p);
        if is_delimiter(s.last()) && open_word(p).len() > 0 {
            assert(closed_words(s) == closed_words(p).push(open_word(p)));
            assert(clean_word(open_word(p)));
            assert forall|i: int| 0 <= i < closed_words(s).len() implies clean_word(
                #[trigger] closed_words(s)[i],
            ) by {
                if i < closed_words(p).len() {
                    assert(closed_words(s)[i] == closed_words(p)[i]);
                }
            }
        } else {
            assert(closed_words(s) == closed_words(p));
        }
    }
}

proof fn lemma_joined_clean(ws: Seq<Seq<char>>)
    requires
        forall|i: int| 0 <= i < ws.len() ==> clean_word(#[trigger] ws[i]),
    ensures
        forall|j: int|
            0 <= j < joined(ws).len() ==> #[trigger] joined(ws)[j] == ' ' || !is_delimiter(
                joined(ws)[j],
            ),
    decreases ws.len(),
{
    if ws.len() > 1 {
        let p = ws.drop_last();
        assert forall|i: int| 0 <= i < p.len() implies clean_word(#[trigger] p[i]) by {
            assert(p[i] == ws[i]);
        }
        lemma_joined_clean(p);
        let l = ws.last();
        assert(clean_word(ws[ws.len() - 1]));
        assert forall|j: int| 0 <= j < joined(ws).len() implies #[trigger] joined(ws)[j] == ' '
            || !is_delimiter(joined(ws)[j]) by {
            let a = joined(p);
            if j < a.len() {
                assert(joined(ws)[j] == a[j]);
            } else if j == a.len() {
            } else {
                assert(joined(ws)[j] == l[j - a.len() - 1]);
            }
        }
    } else if ws.len() == 1 {
        assert(clean_word(ws[0]));
    }
}

/// Every word is non-empty and holds no delimiter; joining the words with
/// single spaces yields no delimiter but the space; a text without characters
/// has no words.
pub proof fn lemma_words_are_clean(s: Seq<char>)
    ensures
        forall|i: int| 0 <= i < words(s).len() ==> clean_word(#[trigger] words(s)[i]),
        forall|j: int|
            0 <= j < joined(words(s)).len() ==> #[trigger] joined(words(s))[j] == ' '
                || !is_delimiter(joined(words(s))[j]),
        s.len() == 0 ==> words(s).len() == 0,
{
    lemma_closed_words_clean(s);
    lemma_trailing_run_clean(s);
    lemma_joined_clean(words(s));
}

} // verus!
