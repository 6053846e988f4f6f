use vstd::prelude::*;
use vstd::std_specs::iter::IteratorSpec;

verus! {

/// What `regex::Regex::new(pattern)` followed by `replace_all(text, replacement)`
/// yields: `None` where the pattern is refused.
pub uninterp spec fn regex_replaced(
    pattern: Seq<char>,
    text: Seq<char>,
    replacement: Seq<char>,
) -> Option<Seq<char>>;

/// Relies on `regex::Regex::new` to compile `pattern` (an error for a pattern it
/// refuses) and on `Regex::replace_all` to replace every non-overlapping match,
/// leftmost first; its result depends on the three strings alone.
#[verifier::external_body]
fn replace_matches(pattern: &str, text: &str, replacement: &str) -> (r: Option<String>)
    ensures
        r matches Some(s) ==> regex_replaced(pattern@, text@, replacement@) == Some(s@),
        r is None ==> regex_replaced(pattern@, text@, replacement@) is None,
{
    match regex::Regex::new(pattern) {
        Ok(re) => Some(re.replace_all(text, replacement).into_owned()),
        Err(_) => None,
    }
}

/// The characters of `s` in order.
pub(crate) fn chars_of(s: &str) -> (r: Vec<char>)
    ensures
        r@ == s@,
{
    broadcast use vstd::string::axiom_spec_iter, vstd::string::next_postcondition;

    let mut r: Vec<char> = Vec::new();
    let mut it = s.chars();
    loop
        invariant
            r@ + it.remaining() == s@,
            it.obeys_prophetic_iter_laws(),
            it.decrease() is Some,
        decreases it.decrease()->0,
    {
        match it.next() {
            Some(c) => {
                r.push(c);
                assert(r@ + it.remaining() =~= s@);
            },
            None => {
                assert(r@ =~= s@);
                return r;
            },
        }
    }
}

/// Relies on collecting characters into a `String`: the same characters in order.
#[verifier::external_body]
fn string_of(v: &[char]) -> (r: String)
    ensures
        r@ == v@,
{
    v.iter().collect()
}

/// Runs of two or more underscores (filler lines in license templates).
pub open spec fn underscore_pattern() -> Seq<char> {
    "_{2,}"@
}

/// Angle-bracketed words such as `<YEAR>` (template placeholders).
pub open spec fn placeholder_pattern() -> Seq<char> {
    "<[A-Za-z0-9_]*>"@
}

/// Runs of spaces, tabs, carriage returns and vertical tabs.
pub open spec fn blank_pattern() -> Seq<char> {
    "[\\r\\t\\v ]{1,}"@
}

/// `s` with every newline turned into a space.
pub open spec fn newlines_to_spaces(s: Seq<char>) -> Seq<char> {
    s.map_values(|c: char| if c == '\n' { ' ' } else { c })
}

/// The tokens of `s`: the non-empty pieces between single spaces, where
/// `cur` is a token already begun.
pub open spec fn tokens_from(s: Seq<char>, cur: Seq<char>) -> Seq<Seq<char>>
    decreases s.len(),
{
    if s.len() == 0 {
        if cur.len() == 0 { seq![] } else { seq![cur] }
    } else if s[0] == ' ' {
        let rest = tokens_from(s.drop_first(), seq![]);
        if cur.len() == 0 { rest } else { seq![cur] + rest }
    } else {
        tokens_from(s.drop_first(), cur.push(s[0]))
    }
}

/// The tokens of `s`: split on single spaces, empty pieces dropped.
pub open spec fn tokens(s: Seq<char>) -> Seq<Seq<char>> {
    tokens_from(s, seq![])
}

/// The tokens joined with single spaces.
pub open spec fn joined(t: Seq<Seq<char>>) -> Seq<char>
    decreases t.len(),
{
    if t.len() == 0 {
        seq![]
    } else if t.len() == 1 {
        t[0]
    } else {
        joined(t.drop_last()) + seq![' '] + t.last()
    }
}

/// The canonical tokens of a raw text: newlines become spaces, underscore runs
/// and placeholders are removed, blank runs collapse to one space, and the
/// result is split on spaces. `None` where the regex engine refuses a pattern.
pub open spec fn normal_tokens(text: Seq<char>) -> Option<Seq<Seq<char>>> {
    match regex_replaced(underscore_pattern(), newlines_to_spaces(text), ""@) {
        None => None,
        Some(s1) => match regex_replaced(placeholder_pattern(), s1, ""@) {
            None => None,
            Some(s2) => match regex_replaced(blank_pattern(), s2, " "@) {
                None => None,
                Some(s3) => Some(tokens(s3)),
            },
        },
    }
}

/// The canonical form of a raw text: its canonical tokens joined by single spaces.
pub open spec fn normalized(text: Seq<char>) -> Option<Seq<char>> {
    match normal_tokens(text) {
        None => None,
        Some(t) => Some(joined(t)),
    }
}

/// Whether `w` holds no space.
pub open spec fn spaceless(w: Seq<char>) -> bool {
    forall|i: int| 0 <= i < w.len() ==> #[trigger] w[i] != ' '
}

proof fn lemma_space_flushes(s: Seq<char>, rest: Seq<char>, cur: Seq<char>)
    ensures
        tokens_from(s + (seq![' '] + rest), cur) == tokens_from(s, cur) + tokens_from(rest, seq![]),
    decreases s.len(),
{
    let x = seq![' '] + rest;
    if s.len() == 0 {
        assert(s + x =~= x);
        assert(x.drop_first() =~= rest);
        if cur.len() == 0 {
            assert(seq![] + tokens_from(rest, seq![]) =~= tokens_from(rest, seq![]));
        }
    } else {
        assert((s + x).drop_first() =~= s.drop_first() + x);
        assert((s + x)[0] == s[0]);
        if s[0] == ' ' {
            lemma_space_flushes(s.drop_first(), rest, seq![]);
            if cur.len() != 0 {
                assert(seq![cur] + (tokens_from(s.drop_first(), seq![]) + tokens_from(rest, seq![]))
                    =~= (seq![cur] + tokens_from(s.drop_first(), seq![])) + tokens_from(rest, seq![]));
            }
        } else {
            lemma_space_flushes(s.drop_first(), rest, cur.push(s[0]));
        }
    }
}

proof fn lemma_one_token(w: Seq<char>, cur: Seq<char>)
    requires
        spaceless(w),
        cur.len() + w.len() > 0,
    ensures
        tokens_from(w, cur) == seq![cur + w],
    decreases w.len(),
{
    if w.len() == 0 {
        assert(cur + w =~= cur);
    } else {
        assert(w[0] != ' ');
        assert forall|i: int| 0 <= i < w.drop_first().len() implies #[trigger] w.drop_first()[i] != ' ' by {
            assert(w.drop_first()[i] == w[i + 1]);
        }
        lemma_one_token(w.drop_first(), cur.push(w[0]));
        assert(cur.push(w[0]) + w.drop_first() =~= cur + w);
    }
}

proof fn lemma_tokens_shape(s: Seq<char>, cur: Seq<char>)
    requires
        spaceless(cur),
    ensures
        forall|k: int| 0 <= k < tokens_from(s, cur).len() ==> (#[trigger] tokens_from(s, cur)[k]).len() > 0
            && spaceless(tokens_from(s, cur)[k]),
    decreases s.len(),
{
    let r = tokens_from(s, cur);
    if s.len() == 0 {
        assert forall|k: int| 0 <= k < r.len() implies (#[trigger] r[k]).len() > 0 && spaceless(r[k]) by {
            assert(r == seq![cur]);
        }
    } else if s[0] == ' ' {
        lemma_tokens_shape(s.drop_first(), seq![]);
        let rest = tokens_from(s.drop_first(), seq![]);
        assert forall|k: int| 0 <= k < r.len() implies (#[trigger] r[k]).len() > 0 && spaceless(r[k]) by {
            if cur.len() > 0 {
                assert(r == seq![cur] + rest);
                if k > 0 {
                    assert(r[k] == rest[k - 1]);
                }
            } else {
                assert(r == rest);
            }
        }
    } else {
        let next = cur.push(s[0]);
        assert forall|i: int| 0 <= i < next.len() implies #[trigger] next[i] != ' ' by {
            if i < cur.len() {
                assert(next[i] == cur[i]);
            }
        }
        lemma_tokens_shape(s.drop_first(), next);
        assert(r == tokens_from(s.drop_first(), next));
    }
}

/// Splitting tokens that are non-empty and hold no space, once joined by
/// single spaces, gives them back.
pub proof fn lemma_resplit(t: Seq<Seq<char>>)
    requires
        forall|k: int| 0 <= k < t.len() ==> (#[trigger] t[k]).len() > 0 && spaceless(t[k]),
    ensures
        tokens(joined(t)) == t,
    decreases t.len(),
{
    if t.len() == 1 {
        lemma_one_token(t[0], seq![]);
        assert(seq![] + t[0] =~= t[0]);
        assert(t =~= seq![t[0]]);
    } else if t.len() > 1 {
        let u = t.drop_last();
        assert forall|k: int| 0 <= k < u.len() implies (#[trigger] u[k]).len() > 0 && spaceless(u[k]) by {
            assert(u[k] == t[k]);
        }
        lemma_resplit(u);
        assert(joined(t) =~= joined(u) + (seq![' '] + t.last()));
        lemma_space_flushes(joined(u), t.last(), seq![]);
        assert(t[t.len() - 1].len() > 0 && spaceless(t[t.len() - 1]));
        lemma_one_token(t.last(), seq![]);
        assert(seq![] + t.last() =~= t.last());
        assert(u + seq![t.last()] =~= t);
    }
}

/// The canonical form of a text splits on spaces into exactly its canonical
/// tokens: the splitting and joining that end normalization are undone by
/// splitting again. (Normalizing twice may still remove more: the patterns can
/// match text that the first pass brought together, as in `<<a>>`.)
pub proof fn lemma_normal_form_resplits(text: Seq<char>)
    requires
        normal_tokens(text) is Some,
    ensures
        normalized(text) matches Some(s) && tokens(s) == normal_tokens(text)->0,
{
    let s3 = match regex_replaced(underscore_pattern(), newlines_to_spaces(text), ""@) {
        Some(s1) => match regex_replaced(placeholder_pattern(), s1, ""@) {
            Some(s2) => regex_replaced(blank_pattern(), s2, " "@)->0,
            None => seq![],
        },
        None => seq![],
    };
    assert(normal_tokens(text)->0 == tokens(s3));
    assert(spaceless(seq![]));
    lemma_tokens_shape(s3, seq![]);
    lemma_resplit(tokens(s3));
}

fn newlines_replaced(s: &str) -> (r: String)
    ensures
        r@ == newlines_to_spaces(s@),
{
    let cs = chars_of(s);
    let mut out: Vec<char> = Vec::new();
    let mut i: usize = 0;
    while i < cs.len()
        invariant
            i <= cs.len(),
            out@ =~= newlines_to_spaces(cs@.subrange(0, i as int)),
        decreases cs.len() - i,
    {
        let c = cs[i];
        if c == '\n' {
            out.push(' ');
        } else {
            out.push(c);
        }
        i = i + 1;
        assert(out@ =~= newlines_to_spaces(cs@.subrange(0, i as int)));
    }
    assert(cs@.subrange(0, cs.len() as int) =~= cs@);
    string_of(out.as_slice())
}

/// Splits `s` on single spaces and drops the empty pieces.
pub fn split_tokens(s: &str) -> (r: Vec<String>)
    ensures
        crate::ngram::strings_view(r@) == tokens(s@),
{
    let cs = chars_of(s);
    let mut out: Vec<String> = Vec::new();
    let mut cur: Vec<char> = Vec::new();
    let mut i: usize = 0;
    assert(cs@.skip(0) =~= cs@);
    assert(crate::ngram::strings_view(out@) + tokens(cs@) =~= tokens(cs@));
    while i < cs.len()
        invariant
            i <= cs.len(),
            crate::ngram::strings_view(out@) + tokens_from(cs@.skip(i as int), cur@)
                == tokens(cs@),
        decreases cs.len() - i,
    {
        let ghost rest = cs@.skip(i as int);
        assert(rest.drop_first() =~= cs@.skip(i + 1));
        let ghost old_out = crate::ngram::strings_view(out@);
        if cs[i] == ' ' {
            if cur.len() > 0 {
                let t = string_of(cur.as_slice());
                out.push(t);
                assert(crate::ngram::strings_view(out@) =~= old_out + seq![cur@]);
                assert(old_out + (seq![cur@] + tokens_from(cs@.skip(i + 1), seq![]))
                    =~= crate::ngram::strings_view(out@) + tokens_from(cs@.skip(i + 1), seq![]));
            }
            cur = Vec::new();
        } else {
            cur.push(cs[i]);
        }
        i = i + 1;
    }
    if cur.len() > 0 {
        let ghost old_out = crate::ngram::strings_view(out@);
        let t = string_of(cur.as_slice());
        out.push(t);
        assert(crate::ngram::strings_view(out@) =~= old_out + seq![cur@]);
    } else {
        assert(crate::ngram::strings_view(out@) =~= crate::ngram::strings_view(out@) + seq![]);
    }
    out
}

/// The canonical tokens of `text`; `None` only where the regex engine refuses
/// one of the patterns.
pub fn normalized_tokens(text: &str) -> (r: Option<Vec<String>>)
    ensures
        match r {
            Some(v) => normal_tokens(text@) == Some(crate::ngram::strings_view(v@)),
            None => normal_tokens(text@) is None,
        },
{
    let s0 = newlines_replaced(text);
    let s1 = match replace_matches("_{2,}", s0.as_str(), "") {
        Some(s) => s,
        None => return None,
    };
    let s2 = match replace_matches("<[A-Za-z0-9_]*>", s1.as_str(), "") {
        Some(s) => s,
        None => return None,
    };
    let s3 = match replace_matches("[\\r\\t\\v ]{1,}", s2.as_str(), " ") {
        Some(s) => s,
        None => return None,
    };
    Some(split_tokens(s3.as_str()))
}

/// Joins tokens with single spaces.
pub fn join_tokens(toks: &Vec<String>) -> (r: String)
    ensures
        r@ == joined(crate::ngram::strings_view(toks@)),
{
    let ghost tv = crate::ngram::strings_view(toks@);
    let mut out: Vec<char> = Vec::new();
    let mut i: usize = 0;
    while i < toks.len()
        invariant
            i <= toks.len(),
            tv == crate::ngram::strings_view(toks@),
            out@ == joined(tv.subrange(0, i as int)),
        decreases toks.len() - i,
    {
        let ghost prev = out@;
        if i > 0 {
            out.push(' ');
        }
        let cs = chars_of(toks[i].as_str());
        let mut j: usize = 0;
        let ghost mid = out@;
        while j < cs.len()
            invariant
                j <= cs.len(),
                out@ == mid + cs@.subrange(0, j as int),
            decreases cs.len() - j,
        {
            out.push(cs[j]);
            j = j + 1;
            assert(out@ =~= mid + cs@.subrange(0, j as int));
        }
        assert(cs@.subrange(0, cs.len() as int) =~= cs@);
        let ghost next = tv.subrange(0, i + 1);
        assert(next.drop_last() =~= tv.subrange(0, i as int));
        if i == 0 {
            assert(out@ =~= joined(next));
        } else {
            assert(out@ =~= joined(next));
        }
        i = i + 1;
    }
    assert(tv.subrange(0, toks.len() as int) =~= tv);
    string_of(out.as_slice())
}

/// The canonical form of `text`: its tokens joined by single spaces; `None`
/// only where the regex engine refuses one of the patterns.
pub fn normalize(text: &str) -> (r: Option<String>)
    ensures
        match r {
            Some(s) => normalized(text@) == Some(s@),
            None => normalized(text@) is None,
        },
{
    match normalized_tokens(text) {
        Some(t) => Some(join_tokens(&t)),
        None => None,
    }
}

/// The n-grams of width `n` of the canonical tokens of `text`; `None` only
/// where the regex engine refuses one of the patterns.
pub fn get_ngrams(text: &str, n: usize) -> (r: Option<Vec<crate::ngram::NGram>>)
    requires
        n >= 1,
    ensures
        match r {
            Some(v) => normal_tokens(text@) matches Some(t) && crate::ngram::grams_view(v@)
                == crate::ngram::windows(t, n as nat) && forall|k: int| 0 <= k < v.len() ==> (#[trigger] v@[k]).size == n,
            None => normal_tokens(text@) is None,
        },
{
    match normalized_tokens(text) {
        Some(t) => Some(crate::ngram::ngrams_of(&t, n)),
        None => None,
    }
}

} // verus!
