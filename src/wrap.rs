//! The greedy word-wrap engine.
//!
//! Whether a candidate line fits depends on a text measurement that only the
//! rendering surface can make. So the engine is a stepper: it offers the
//! candidate line for the next word, is told the candidate's measured width,
//! and decides. The decisions taken so far ("fits" or not, one per word)
//! determine the lines completely, which the spec functions below state.
use vstd::prelude::*;
use crate::number::chars_of;

verus! {

/// ASCII whitespace: space, tab, line feed, form feed and carriage return.
pub open spec fn is_space(c: char) -> bool {
    c == ' ' || c == '\t' || c == '\n' || c == '\u{c}' || c == '\r'
}

/// Scanning `s` from the left: the words completed so far, and the word being
/// read (empty between words).
pub open spec fn split_state(s: Seq<char>) -> (Seq<Seq<char>>, Seq<char>)
    decreases s.len(),
{
    if s.len() == 0 {
        (Seq::empty(), Seq::empty())
    } else {
        let (ws, cur) = split_state(s.drop_last());
        if is_space(s.last()) {
            if cur.len() > 0 {
                (ws.push(cur), Seq::empty())
            } else {
                (ws, Seq::empty())
            }
        } else {
            (ws, cur.push(s.last()))
        }
    }
}

/// The maximal runs of non-whitespace characters of `s`, in order.
pub open spec fn words_of(s: Seq<char>) -> Seq<Seq<char>> {
    let (ws, cur) = split_state(s);
    if cur.len() > 0 {
        ws.push(cur)
    } else {
        ws
    }
}

/// Words joined with single spaces.
pub open spec fn join(g: Seq<Seq<char>>) -> Seq<char>
    decreases g.len(),
{
    if g.len() == 0 {
        Seq::empty()
    } else if g.len() == 1 {
        g[0]
    } else {
        join(g.drop_last()) + seq![' '] + g.last()
    }
}

/// All the groups' words, in order.
pub open spec fn concat_groups(gs: Seq<Seq<Seq<char>>>) -> Seq<Seq<char>>
    decreases gs.len(),
{
    if gs.len() == 0 {
        Seq::empty()
    } else {
        concat_groups(gs.drop_last()) + gs.last()
    }
}

/// After the first `n` words: the groups of words of the lines already
/// emitted, and the words of the current line. A word that fits joins the
/// current line; one that does not ends it, and starts the next line alone.
pub open spec fn wrap_state(words: Seq<Seq<char>>, fits: Seq<bool>, n: nat) -> (
    Seq<Seq<Seq<char>>>,
    Seq<Seq<char>>,
)
    decreases n,
{
    if n == 0 {
        (Seq::empty(), Seq::empty())
    } else {
        let (gs, cur) = wrap_state(words, fits, (n - 1) as nat);
        if fits[n - 1] {
            (gs, cur.push(words[n - 1]))
        } else {
            (gs.push(cur), seq![words[n - 1]])
        }
    }
}

/// The words of every line, once all words are placed: the current line is
/// emitted last, even when it holds no word.
pub open spec fn wrap_groups(words: Seq<Seq<char>>, fits: Seq<bool>) -> Seq<Seq<Seq<char>>> {
    let (gs, cur) = wrap_state(words, fits, words.len());
    gs.push(cur)
}

/// The lines of text that wrapping emits.
pub open spec fn wrap_lines(words: Seq<Seq<char>>, fits: Seq<bool>) -> Seq<Seq<char>> {
    wrap_groups(words, fits).map_values(|g: Seq<Seq<char>>| join(g))
}

pub open spec fn views(v: Seq<String>) -> Seq<Seq<char>> {
    v.map_values(|s: String| s@)
}

/// Splits `text` into its words.
pub fn split_words(text: &str) -> (r: Vec<String>)
    ensures
        views(r@) == words_of(text@),
{
    let cs = chars_of(text);
    let n = cs.len();
    let mut ws: Vec<String> = Vec::new();
    let mut start: usize = 0;
    let mut in_word = false;
    let mut i: usize = 0;
    while i < n
        invariant
            n == cs@.len(),
            cs@ == text@,
            i <= n,
            start <= i,
            split_state(cs@.take(i as int)) == (views(ws@), if in_word {
                cs@.subrange(start as int, i as int)
            } else {
                Seq::<char>::empty()
            }),
            in_word ==> start < i,
        decreases n - i,
    {
        let c = cs[i];
        proof {
            assert(cs@.take(i + 1).drop_last() =~= cs@.take(i as int));
            assert(cs@.take(i + 1).last() == c);
        }
        if c == ' ' || c == '\t' || c == '\n' || c == '\u{c}' || c == '\r' {
            if in_word {
                let w = text.substring_char(start, i).to_owned();
                let ghost before = ws@;
                ws.push(w);
                proof {
                    assert(views(ws@) =~= views(before).push(cs@.subrange(start as int, i as int)));
                }
                in_word = false;
            }
        } else {
            if !in_word {
                start = i;
                in_word = true;
                proof {
                    assert(Seq::<char>::empty().push(c) =~= cs@.subrange(start as int, i + 1));
                }
            } else {
                proof {
                    assert(cs@.subrange(start as int, i as int).push(c) =~= cs@.subrange(start as int, i + 1));
                }
            }
        }
        i = i + 1;
    }
    if in_word {
        let w = text.substring_char(start, n).to_owned();
        let ghost before = ws@;
        ws.push(w);
        proof {
            assert(views(ws@) =~= views(before).push(cs@.subrange(start as int, n as int)));
        }
    }
    proof {
        assert(cs@.take(n as int) =~= cs@);
    }
    ws
}


/// Decisions that agree on the first `n` words give the same state after them.
pub proof fn lemma_wrap_state_prefix(words: Seq<Seq<char>>, f1: Seq<bool>, f2: Seq<bool>, n: nat)
    requires
        n <= f1.len(),
        n <= f2.len(),
        forall|i: int| 0 <= i < n ==> f1[i] == f2[i],
    ensures
        wrap_state(words, f1, n) == wrap_state(words, f2, n),
    decreases n,
{
    if n > 0 {
        lemma_wrap_state_prefix(words, f1, f2, (n - 1) as nat);
    }
}

/// The current line holds at most the words placed so far.
proof fn lemma_current_len(words: Seq<Seq<char>>, fits: Seq<bool>, n: nat)
    ensures
        wrap_state(words, fits, n).1.len() <= n,
    decreases n,
{
    if n > 0 {
        lemma_current_len(words, fits, (n - 1) as nat);
    }
}

/// The line that a word joins: the current line's words and then the word.
pub proof fn lemma_join_push(g: Seq<Seq<char>>, w: Seq<char>)
    ensures
        join(g.push(w)) == if g.len() == 0 {
            w
        } else {
            join(g) + seq![' '] + w
        },
{
    assert(g.push(w).drop_last() =~= g);
}

proof fn lemma_concat_push(gs: Seq<Seq<Seq<char>>>, g: Seq<Seq<char>>)
    ensures
        concat_groups(gs.push(g)) == concat_groups(gs) + g,
{
    assert(gs.push(g).drop_last() =~= gs);
}

proof fn lemma_state_keeps_words(words: Seq<Seq<char>>, fits: Seq<bool>, n: nat)
    requires
        n <= words.len(),
        n <= fits.len(),
    ensures
        concat_groups(wrap_state(words, fits, n).0.push(wrap_state(words, fits, n).1))
            == words.take(n as int),
    decreases n,
{
    let (gs, cur) = wrap_state(words, fits, n);
    if n == 0 {
        lemma_concat_push(gs, cur);
        assert(concat_groups(gs) =~= Seq::<Seq<char>>::empty());
        assert(words.take(0) =~= Seq::<Seq<char>>::empty());
    } else {
        let (gs0, cur0) = wrap_state(words, fits, (n - 1) as nat);
        lemma_state_keeps_words(words, fits, (n - 1) as nat);
        lemma_concat_push(gs0, cur0);
        lemma_concat_push(gs, cur);
        assert(words.take(n as int) =~= words.take(n - 1) + seq![words[n - 1]]);
        if fits[n - 1] {
            assert(cur0.push(words[n - 1]) =~= cur0 + seq![words[n - 1]]);
        } else {
            lemma_concat_push(gs0, cur0);
            assert(concat_groups(gs0) + cur0 + seq![words[n - 1]] =~= concat_groups(gs0) + (cur0
                + seq![words[n - 1]]));
        }
    }
}

/// Wrapping neither drops nor reorders words: the lines' words, read in
/// order, are the words of the text, and each line is its words joined with
/// single spaces.
pub proof fn lemma_wrap_keeps_words(words: Seq<Seq<char>>, fits: Seq<bool>)
    requires
        fits.len() == words.len(),
    ensures
        concat_groups(wrap_groups(words, fits)) == words,
        wrap_lines(words, fits).len() == wrap_groups(words, fits).len(),
        forall|k: int|
            0 <= k < wrap_lines(words, fits).len() ==> #[trigger] wrap_lines(words, fits)[k] == join(
                wrap_groups(words, fits)[k],
            ),
{
    lemma_state_keeps_words(words, fits, words.len());
    assert(words.take(words.len() as int) =~= words);
}

proof fn lemma_all_fit_state(words: Seq<Seq<char>>, fits: Seq<bool>, n: nat)
    requires
        n <= words.len(),
        n <= fits.len(),
        forall|i: int| 0 <= i < n ==> fits[i],
    ensures
        wrap_state(words, fits, n) == (Seq::<Seq<Seq<char>>>::empty(), words.take(n as int)),
    decreases n,
{
    if n == 0 {
        assert(words.take(0) =~= Seq::<Seq<char>>::empty());
    } else {
        lemma_all_fit_state(words, fits, (n - 1) as nat);
        assert(words.take(n - 1).push(words[n - 1]) =~= words.take(n as int));
    }
}

/// Text whose every candidate line fits is one line: all its words joined
/// with single spaces (an empty text gives one empty line).
pub proof fn lemma_fitting_text_is_one_line(words: Seq<Seq<char>>, fits: Seq<bool>)
    requires
        fits.len() == words.len(),
        forall|i: int| 0 <= i < fits.len() ==> fits[i],
    ensures
        wrap_lines(words, fits) == seq![join(words)],
{
    lemma_all_fit_state(words, fits, words.len());
    assert(words.take(words.len() as int) =~= words);
    assert(wrap_lines(words, fits) =~= seq![join(words)]);
}

proof fn lemma_groups_grow(words: Seq<Seq<char>>, fits: Seq<bool>, n: nat, m: nat)
    requires
        n <= m,
    ensures
        wrap_state(words, fits, n).0.len() <= wrap_state(words, fits, m).0.len(),
        forall|k: int|
            0 <= k < wrap_state(words, fits, n).0.len() ==> wrap_state(words, fits, m).0[k]
                == wrap_state(words, fits, n).0[k],
    decreases m - n,
{
    if n < m {
        lemma_groups_grow(words, fits, n, (m - 1) as nat);
    }
}

/// A word whose candidate line does not fit is never split or cut: it starts
/// a line of its own, whole, and where the next word does not fit either (or
/// none follows) that line holds this word alone.
pub proof fn lemma_wide_word_own_line(words: Seq<Seq<char>>, fits: Seq<bool>, i: int)
    requires
        fits.len() == words.len(),
        0 <= i < words.len(),
        !fits[i],
    ensures
        wrap_state(words, fits, (i + 1) as nat).1 == seq![words[i]],
        i + 1 == words.len() || !fits[i + 1] ==> exists|k: int|
            0 <= k < wrap_groups(words, fits).len() && wrap_groups(words, fits)[k] == seq![words[i]]
                && wrap_lines(words, fits)[k] == words[i],
{
    assert(join(seq![words[i]]) == words[i]);
    if i + 1 == words.len() {
        let k = wrap_groups(words, fits).len() - 1;
        assert(wrap_groups(words, fits)[k] == seq![words[i]]);
    } else if !fits[i + 1] {
        let s1 = wrap_state(words, fits, (i + 1) as nat);
        let gs = wrap_state(words, fits, (i + 2) as nat).0;
        assert(gs == s1.0.push(s1.1));
        let k = gs.len() - 1;
        assert(gs[k] == seq![words[i]]);
        lemma_groups_grow(words, fits, (i + 2) as nat, words.len());
        assert(wrap_groups(words, fits)[k] == seq![words[i]]);
    }
}

/// One word too wide for the line: an empty line is emitted first (the line
/// that was current), then the word alone on the next.
pub proof fn lemma_single_wide_word(w: Seq<char>, fit: bool)
    requires
        !fit,
    ensures
        wrap_lines(seq![w], seq![fit]) == seq![Seq::<char>::empty(), w],
{
    let words = seq![w];
    let fits = seq![fit];
    let s0 = wrap_state(words, fits, 0);
    assert(s0 == (Seq::<Seq<Seq<char>>>::empty(), Seq::<Seq<char>>::empty()));
    let s1 = wrap_state(words, fits, 1);
    assert(s1 == (s0.0.push(s0.1), seq![words[0]]));
    assert(wrap_groups(words, fits) =~= seq![Seq::<Seq<char>>::empty(), seq![w]]);
    assert(join(seq![w]) == w);
    assert(wrap_lines(words, fits) =~= seq![Seq::<char>::empty(), w]);
}

/// A word as the splitter produces it: not empty, without whitespace.
pub open spec fn is_word(w: Seq<char>) -> bool {
    w.len() > 0 && forall|j: int| 0 <= j < w.len() ==> !is_space(#[trigger] w[j])
}

pub open spec fn all_words(ws: Seq<Seq<char>>) -> bool {
    forall|i: int| 0 <= i < ws.len() ==> is_word(#[trigger] ws[i])
}

proof fn lemma_split_valid(s: Seq<char>)
    ensures
        all_words(split_state(s).0),
        forall|j: int| 0 <= j < split_state(s).1.len() ==> !is_space(#[trigger] split_state(s).1[j]),
        all_words(words_of(s)),
    decreases s.len(),
{
    if s.len() > 0 {
        lemma_split_valid(s.drop_last());
        let (ws, cur) = split_state(s.drop_last());
        if !is_space(s.last()) {
            assert forall|j: int| 0 <= j < cur.push(s.last()).len() implies !is_space(
                #[trigger] cur.push(s.last())[j],
            ) by {
                if j < cur.len() {
                    assert(cur.push(s.last())[j] == cur[j]);
                }
            }
        }
    }
    let (ws, cur) = split_state(s);
    if cur.len() > 0 {
        assert forall|i: int| 0 <= i < ws.push(cur).len() implies is_word(#[trigger] ws.push(cur)[i]) by {
            if i < ws.len() {
                assert(ws.push(cur)[i] == ws[i]);
            }
        }
    }
}

/// Appending characters that are not whitespace extends the word being read.
proof fn lemma_split_append(x: Seq<char>, w: Seq<char>)
    requires
        forall|j: int| 0 <= j < w.len() ==> !is_space(#[trigger] w[j]),
    ensures
        split_state(x + w) == (split_state(x).0, split_state(x).1 + w),
    decreases w.len(),
{
    if w.len() == 0 {
        assert(x + w =~= x);
        assert(split_state(x).1 + w =~= split_state(x).1);
    } else {
        let w0 = w.drop_last();
        assert forall|j: int| 0 <= j < w0.len() implies !is_space(#[trigger] w0[j]) by {
            assert(w0[j] == w[j]);
        }
        lemma_split_append(x, w0);
        assert((x + w).drop_last() =~= x + w0);
        assert((x + w).last() == w.last());
        assert(!is_space(w[w.len() - 1]));
        assert((split_state(x).1 + w0).push(w.last()) =~= split_state(x).1 + w);
    }
}

/// Reading words joined with single spaces gives back the words.
proof fn lemma_split_join(g: Seq<Seq<char>>)
    requires
        g.len() > 0,
        all_words(g),
    ensures
        split_state(join(g)) == (g.drop_last(), g.last()),
        words_of(join(g)) == g,
    decreases g.len(),
{
    assert(is_word(g[g.len() - 1]));
    if g.len() == 1 {
        lemma_split_append(Seq::empty(), g[0]);
        assert(Seq::<char>::empty() + g[0] =~= g[0]);
        assert(split_state(Seq::<char>::empty()) == (Seq::<Seq<char>>::empty(), Seq::<char>::empty()));
        assert(Seq::<char>::empty() + g[0] =~= g[0]);
        assert(g.drop_last() =~= Seq::<Seq<char>>::empty());
    } else {
        let g0 = g.drop_last();
        assert(all_words(g0)) by {
            assert forall|i: int| 0 <= i < g0.len() implies is_word(#[trigger] g0[i]) by {
                assert(g0[i] == g[i]);
            }
        }
        lemma_split_join(g0);
        assert(is_word(g0[g0.len() - 1]));
        let x = join(g0) + seq![' '];
        assert(x.drop_last() =~= join(g0));
        assert(x.last() == ' ');
        assert(g0.drop_last().push(g0.last()) =~= g0);
        assert(split_state(x) == (g0, Seq::<char>::empty()));
        lemma_split_append(x, g.last());
        assert(Seq::<char>::empty() + g.last() =~= g.last());
    }
    assert(g.drop_last().push(g.last()) =~= g);
}

/// The words of each line, one line after another.
pub open spec fn line_words(lines: Seq<Seq<char>>) -> Seq<Seq<char>> {
    concat_groups(lines.map_values(|l: Seq<char>| words_of(l)))
}

proof fn lemma_groups_of_words(gs: Seq<Seq<Seq<char>>>)
    requires
        all_words(concat_groups(gs)),
    ensures
        forall|k: int| 0 <= k < gs.len() ==> all_words(#[trigger] gs[k]),
    decreases gs.len(),
{
    if gs.len() > 0 {
        let g0 = gs.drop_last();
        lemma_concat_push(g0, gs.last());
        assert(gs =~= g0.push(gs.last()));
        let c0 = concat_groups(g0);
        assert forall|i: int| 0 <= i < c0.len() implies is_word(#[trigger] c0[i]) by {
            assert((c0 + gs.last())[i] == c0[i]);
        }
        lemma_groups_of_words(g0);
        assert forall|i: int| 0 <= i < gs.last().len() implies is_word(#[trigger] gs.last()[i]) by {
            assert((c0 + gs.last())[c0.len() + i] == gs.last()[i]);
        }
        assert forall|k: int| 0 <= k < gs.len() implies all_words(#[trigger] gs[k]) by {
            if k < g0.len() {
                assert(gs[k] == g0[k]);
            }
        }
    }
}

/// Wrapping never drops or reorders words: reading the words of every
/// emitted line, in order, gives exactly the words of the text.
pub proof fn lemma_wrap_line_words(text: Seq<char>, fits: Seq<bool>)
    requires
        fits.len() == words_of(text).len(),
    ensures
        line_words(wrap_lines(words_of(text), fits)) == words_of(text),
{
    let words = words_of(text);
    let gs = wrap_groups(words, fits);
    lemma_split_valid(text);
    lemma_wrap_keeps_words(words, fits);
    lemma_groups_of_words(gs);
    let per_line = wrap_lines(words, fits).map_values(|l: Seq<char>| words_of(l));
    assert forall|k: int| 0 <= k < gs.len() implies per_line[k] == gs[k] by {
        if gs[k].len() > 0 {
            lemma_split_join(gs[k]);
        } else {
            assert(gs[k] =~= Seq::<Seq<char>>::empty());
            assert(split_state(Seq::<char>::empty()) == (Seq::<Seq<char>>::empty(), Seq::<char>::empty()));
        }
    }
    assert(per_line =~= gs);
}

proof fn lemma_state_nonempty(words: Seq<Seq<char>>, fits: Seq<bool>, n: nat)
    requires
        1 <= n <= words.len(),
        fits.len() == words.len(),
        fits[0],
    ensures
        wrap_state(words, fits, n).1.len() >= 1,
        forall|k: int|
            0 <= k < wrap_state(words, fits, n).0.len() ==> (#[trigger] wrap_state(words, fits, n).0[k]).len()
                >= 1,
        (exists|i: int| 0 < i < n && !fits[i]) ==> wrap_state(words, fits, n).0.len() >= 1,
    decreases n,
{
    if n == 1 {
        let s0 = wrap_state(words, fits, 0);
        assert(s0.0.len() == 0 && s0.1.len() == 0);
    } else {
        lemma_state_nonempty(words, fits, (n - 1) as nat);
        let (gs, cur) = wrap_state(words, fits, (n - 1) as nat);
        if !fits[n - 1] {
            assert forall|k: int| 0 <= k < gs.push(cur).len() implies (#[trigger] gs.push(cur)[k]).len() >= 1 by {
                if k < gs.len() {
                    assert(gs.push(cur)[k] == gs[k]);
                }
            }
        } else {
            if exists|i: int| 0 < i < n && !fits[i] {
                let i = choose|i: int| 0 < i < n && !fits[i];
                assert(i < n - 1);
            }
        }
    }
}

proof fn lemma_join_nonempty(g: Seq<Seq<char>>)
    requires
        g.len() > 0,
        all_words(g),
    ensures
        join(g).len() > 0,
{
    if g.len() == 1 {
        assert(is_word(g[0]));
    } else {
        assert((join(g.drop_last()) + seq![' '] + g.last()).len() > 0);
    }
}

/// Text whose first word fits but which does not fit whole (some later
/// candidate line does not fit) is wrapped into two lines or more, none of
/// them empty.
pub proof fn lemma_wrap_several_lines(text: Seq<char>, fits: Seq<bool>, i: int)
    requires
        fits.len() == words_of(text).len(),
        0 < i < fits.len(),
        fits[0],
        !fits[i],
    ensures
        wrap_lines(words_of(text), fits).len() >= 2,
        forall|k: int|
            0 <= k < wrap_lines(words_of(text), fits).len() ==> (#[trigger] wrap_lines(
                words_of(text),
                fits,
            )[k]).len() > 0,
{
    let words = words_of(text);
    let gs = wrap_groups(words, fits);
    lemma_state_nonempty(words, fits, words.len());
    lemma_split_valid(text);
    lemma_wrap_keeps_words(words, fits);
    lemma_groups_of_words(gs);
    let (g0, cur) = wrap_state(words, fits, words.len());
    assert forall|k: int| 0 <= k < gs.len() implies (#[trigger] wrap_lines(words, fits)[k]).len() > 0 by {
        if k < g0.len() {
            assert(gs[k] == g0[k]);
        }
        lemma_join_nonempty(gs[k]);
    }
}

/// One wrapping in progress: the words of a text, how many of them are
/// placed, the lines already emitted and the line being filled.
pub struct Wrapper {
    words: Vec<String>,
    placed: usize,
    line_words: usize,
    current: String,
    lines: Vec<String>,
    avail: i64,
    fits: Ghost<Seq<bool>>,
}

impl Wrapper {
    /// The words to wrap.
    pub closed spec fn words(&self) -> Seq<Seq<char>> {
        views(self.words@)
    }

    /// The width a line may take.
    pub closed spec fn avail(&self) -> int {
        self.avail as int
    }

    /// For each word placed so far, whether its candidate line fitted.
    pub closed spec fn fits(&self) -> Seq<bool> {
        self.fits@
    }

    /// The words of the line being filled.
    pub open spec fn current_words(&self) -> Seq<Seq<char>> {
        wrap_state(self.words(), self.fits(), self.fits().len()).1
    }

    pub closed spec fn wf(&self) -> bool {
        let (gs, cur) = wrap_state(self.words(), self.fits(), self.placed as nat);
        &&& self.fits@.len() == self.placed
        &&& self.placed <= self.words@.len()
        &&& views(self.lines@) == gs.map_values(|g: Seq<Seq<char>>| join(g))
        &&& self.current@ == join(cur)
        &&& self.line_words == cur.len()
    }

    /// Starts wrapping `text` into lines no wider than `avail`.
    pub fn new(text: &str, avail: i64) -> (r: Wrapper)
        ensures
            r.wf(),
            r.words() == words_of(text@),
            r.avail() == avail,
            r.fits() == Seq::<bool>::empty(),
            r.current_words() == Seq::<Seq<char>>::empty(),
    {
        let words = split_words(text);
        let r = Wrapper {
            words,
            placed: 0,
            line_words: 0,
            current: String::new(),
            lines: Vec::new(),
            avail,
            fits: Ghost(Seq::empty()),
        };
        proof {
            assert(views(r.lines@) =~= Seq::<Seq<Seq<char>>>::empty().map_values(
                |g: Seq<Seq<char>>| join(g),
            ));
        }
        r
    }

    /// Whether every word is placed.
    pub fn done(&self) -> (r: bool)
        requires
            self.wf(),
        ensures
            r == (self.fits().len() == self.words().len()),
    {
        self.placed == self.words.len()
    }

    /// The candidate line for the next word: the current line with the word
    /// appended after a space, or the word alone on an empty line.
    pub fn candidate(&self) -> (r: Option<String>)
        requires
            self.wf(),
        ensures
            r is Some <==> self.fits().len() < self.words().len(),
            self.fits().len() <= self.words().len(),
            r matches Some(c) ==> c@ == join(
                self.current_words().push(self.words()[self.fits().len() as int]),
            ),
    {
        if self.placed == self.words.len() {
            return None;
        }
        let word = &self.words[self.placed];
        proof {
            lemma_join_push(self.current_words(), word@);
            assert(self.words()[self.placed as int] == word@);
        }
        if self.line_words == 0 {
            Some(word.clone())
        } else {
            proof {
                reveal_strlit(" ");
            }
            Some(self.current.clone().concat(" ").concat(word.as_str()))
        }
    }

    /// Places the next word, given the measured width of its candidate line:
    /// the word joins the current line if that width is at most the available
    /// width; otherwise the current line is emitted and the word starts the
    /// next one.
    pub fn feed(&mut self, measured: i64)
        requires
            old(self).wf(),
            old(self).fits().len() < old(self).words().len(),
        ensures
            final(self).wf(),
            final(self).words() == old(self).words(),
            final(self).avail() == old(self).avail(),
            final(self).fits() == old(self).fits().push(measured <= old(self).avail()),
    {
        let ghost f0 = self.fits@;
        let ghost words = self.words();
        let ghost n = self.placed as nat;
        let total = self.words.len();
        proof {
            assert(views(self.words@).len() == self.words@.len());
            assert(self.placed < total);
            lemma_current_len(words, f0, n);
        }
        let fit = measured <= self.avail;
        let cand = match self.candidate() {
            Some(c) => c,
            None => String::new(),
        };
        let word = self.words[self.placed].clone();
        proof {
            let f1 = f0.push(fit);
            lemma_wrap_state_prefix(words, f0, f1, n);
            assert(words[n as int] == word@);
        }
        if fit {
            self.current = cand;
            self.line_words = self.line_words + 1;
        } else {
            let line = self.current.clone();
            self.current = word;
            let ghost before = self.lines@;
            self.lines.push(line);
            self.line_words = 1;
            proof {
                let (gs, cur) = wrap_state(words, f0, n);
                assert(views(self.lines@) =~= views(before).push(line@));
                assert(gs.push(cur).map_values(|g: Seq<Seq<char>>| join(g)) =~= gs.map_values(
                    |g: Seq<Seq<char>>| join(g),
                ).push(join(cur)));
                assert(join(seq![word@]) == word@);
            }
        }
        self.placed = self.placed + 1;
        self.fits = Ghost(f0.push(fit));
    }

    /// The emitted lines, the last line included, once every word is placed.
    pub fn finish(self) -> (r: Vec<String>)
        requires
            self.wf(),
            self.fits().len() == self.words().len(),
        ensures
            views(r@) == wrap_lines(self.words(), self.fits()),
    {
        let mut lines = self.lines;
        let ghost before = lines@;
        lines.push(self.current);
        proof {
            let (gs, cur) = wrap_state(self.words(), self.fits(), self.placed as nat);
            assert(views(lines@) =~= views(before).push(join(cur)));
            assert(wrap_lines(self.words(), self.fits()) =~= gs.map_values(
                |g: Seq<Seq<char>>| join(g),
            ).push(join(cur)));
        }
        lines
    }
}

} // verus!
