//! Path expressions and the navigation steps they are made of.

use vstd::prelude::*;
use vstd::string::StrSliceExecFns;

verus! {

/// One navigation step of a path expression.
#[derive(Clone, Copy, Debug, PartialEq)]
pub enum Token<'a> {
    /// Matches every element of an array.
    Any,
    /// Names an object field or, read as a number, an array index.
    Key(&'a str),
}

/// What a [`Token`] stands for: the step, with its text as a sequence of
/// characters.
pub enum Step {
    Any,
    Key(Seq<char>),
}

impl<'a> View for Token<'a> {
    type V = Step;

    open spec fn view(&self) -> Step {
        match *self {
            Token::Any => Step::Any,
            Token::Key(text) => Step::Key(text@),
        }
    }
}

/// The steps that a sequence of tokens stands for, in order.
pub open spec fn steps<'a>(tokens: Seq<Token<'a>>) -> Seq<Step> {
    tokens.map_values(|t: Token<'a>| t@)
}

/// Length of the longest prefix of `s` that holds no `.`.
pub open spec fn head_len(s: Seq<char>) -> nat
    decreases s.len(),
{
    if s.len() == 0 || s[0] == '.' {
        0
    } else {
        1 + head_len(s.drop_first())
    }
}

/// The segments of `s`: the pieces between its `.` characters, in order.
/// A `.` at either end or two in a row bound an empty segment.
pub open spec fn segments(s: Seq<char>) -> Seq<Seq<char>>
    decreases s.len(),
{
    let n = head_len(s) as int;
    if n >= s.len() {
        seq![s]
    } else {
        seq![s.take(n)] + segments(s.skip(n + 1))
    }
}

/// The step that one segment denotes: `*` alone is the wildcard, any other
/// text is a key.
pub open spec fn step_of(segment: Seq<char>) -> Step {
    if segment =~= seq!['*'] {
        Step::Any
    } else {
        Step::Key(segment)
    }
}

/// The steps that a path expression denotes.
pub open spec fn tokenize(expression: Seq<char>) -> Seq<Step> {
    segments(expression).map_values(|segment: Seq<char>| step_of(segment))
}

/// Splits a path expression at each `.` and reads every segment as a step.
pub fn parse_expression<'a>(expression: &'a str) -> (tokens: Vec<Token<'a>>)
    ensures
        steps(tokens@) == tokenize(expression@),
        tokens@.len() >= 1,
{
    let n = expression.unicode_len();
    let mut tokens: Vec<Token<'a>> = Vec::new();
    let mut start: usize = 0;
    let mut i: usize = 0;
    assert(expression@.skip(0) =~= expression@);
    for c in it: expression.chars()
        invariant
            n == expression@.len(),
            it.seq() == expression@,
            i == it.index(),
            start <= i <= n,
            forall|j: int| start <= j < i ==> expression@[j] != '.',
            steps(tokens@) + tokenize(expression@.skip(start as int)) == tokenize(expression@),
    {
        if c == '.' {
            let segment = expression.substring_char(start, i);
            let token = token_of(segment);
            proof {
                let tail = expression@.skip(start as int);
                lemma_head_len(tail, i - start);
                assert(tail.take(i - start) =~= segment@);
                assert(tail.skip(i - start + 1) =~= expression@.skip(i + 1));
                assert(tokenize(tail) =~= seq![token@] + tokenize(expression@.skip(i + 1)));
                assert(steps(tokens@.push(token)) =~= steps(tokens@) + seq![token@]);
            }
            tokens.push(token);
            start = i + 1;
        }
        i = i + 1;
    }
    let segment = expression.substring_char(start, n);
    let token = token_of(segment);
    proof {
        let tail = expression@.skip(start as int);
        lemma_head_len(tail, n - start);
        assert(tail =~= segment@);
        assert(tokenize(tail) =~= seq![token@]);
        assert(steps(tokens@.push(token)) =~= steps(tokens@) + seq![token@]);
    }
    tokens.push(token);
    tokens
}

/// Reads one segment as a step.
fn token_of<'a>(segment: &'a str) -> (token: Token<'a>)
    ensures
        token@ == step_of(segment@),
{
    if segment.unicode_len() == 1 && segment.get_char(0) == '*' {
        Token::Any
    } else {
        Token::Key(segment)
    }
}

/// `head_len(s)` is `k` when the first `k` characters hold no `.` and the
/// next one, if there is one, is a `.`.
pub proof fn lemma_head_len(s: Seq<char>, k: int)
    requires
        0 <= k <= s.len(),
        forall|j: int| 0 <= j < k ==> s[j] != '.',
        k == s.len() || s[k] == '.',
    ensures
        head_len(s) == k,
    decreases k,
{
    if k > 0 {
        let rest = s.drop_first();
        assert forall|j: int| 0 <= j < k - 1 implies rest[j] != '.' by {
            assert(rest[j] == s[j + 1]);
        }
        lemma_head_len(rest, k - 1);
    }
}

/// Whether `s` holds no `.`.
pub open spec fn dot_free(s: Seq<char>) -> bool {
    forall|i: int| 0 <= i < s.len() ==> s[i] != '.'
}

/// The parts written one after the other with a `.` between neighbours.
pub open spec fn join(parts: Seq<Seq<char>>) -> Seq<char>
    decreases parts.len(),
{
    if parts.len() == 0 {
        Seq::empty()
    } else if parts.len() == 1 {
        parts[0]
    } else {
        parts[0] + seq!['.'] + join(parts.drop_first())
    }
}

/// The prefix that `head_len` measures lies within `s`, holds no `.`, and
/// ends at a `.` or at the end of `s`.
pub proof fn lemma_head_len_bounds(s: Seq<char>)
    ensures
        head_len(s) <= s.len(),
        dot_free(s.take(head_len(s) as int)),
        head_len(s) < s.len() ==> s[head_len(s) as int] == '.',
    decreases s.len(),
{
    if s.len() > 0 && s[0] != '.' {
        let rest = s.drop_first();
        lemma_head_len_bounds(rest);
        let n = head_len(s) as int;
        assert forall|i: int| 0 <= i < n implies s.take(n)[i] != '.' by {
            if i > 0 {
                assert(s.take(n)[i] == rest.take(n - 1)[i - 1]);
            }
        }
    }
}

/// Splitting loses nothing: there is at least one segment, no segment holds
/// a `.`, and the segments joined by `.` are the text that was split.
pub proof fn lemma_segments_join(s: Seq<char>)
    ensures
        segments(s).len() >= 1,
        forall|k: int| 0 <= k < segments(s).len() ==> dot_free(#[trigger] segments(s)[k]),
        join(segments(s)) == s,
    decreases s.len(),
{
    lemma_head_len_bounds(s);
    let n = head_len(s) as int;
    if n >= s.len() {
        assert(s.take(n) =~= s);
    } else {
        let head = s.take(n);
        let tail = segments(s.skip(n + 1));
        lemma_segments_join(s.skip(n + 1));
        let all = seq![head] + tail;
        assert(all.drop_first() =~= tail);
        assert forall|k: int| 0 <= k < all.len() implies dot_free(#[trigger] all[k]) by {
            if k > 0 {
                assert(all[k] == tail[k - 1]);
            }
        }
        assert(head + seq!['.'] + s.skip(n + 1) =~= s);
    }
}

/// Splitting undoes joining: parts that hold no `.`, joined by `.`, split
/// into those same parts. With `lemma_segments_join` this makes the segments
/// of a text the one way to cut it at every `.`.
pub proof fn lemma_segments_of_join(parts: Seq<Seq<char>>)
    requires
        parts.len() >= 1,
        forall|k: int| 0 <= k < parts.len() ==> dot_free(#[trigger] parts[k]),
    ensures
        segments(join(parts)) == parts,
    decreases parts.len(),
{
    let s = join(parts);
    let head = parts[0];
    if parts.len() == 1 {
        lemma_head_len(s, s.len() as int);
        assert(seq![s] =~= parts);
    } else {
        let rest = parts.drop_first();
        assert forall|k: int| 0 <= k < rest.len() implies dot_free(#[trigger] rest[k]) by {
            assert(rest[k] == parts[k + 1]);
        }
        lemma_segments_of_join(rest);
        let n = head.len() as int;
        assert forall|j: int| 0 <= j < n implies s[j] != '.' by {
            assert(s[j] == head[j]);
        }
        lemma_head_len(s, n);
        assert(s.take(n) =~= head);
        assert(s.skip(n + 1) =~= join(rest));
        assert(seq![head] + rest =~= parts);
    }
}

/// Every expression, the empty one too, has at least one step.
pub proof fn lemma_tokenize_nonempty(expression: Seq<char>)
    ensures
        tokenize(expression).len() >= 1,
{
    lemma_segments_join(expression);
}

/// There is one step for each segment, in order: the wildcard where the
/// segment is `*` alone, and a key with the segment as its text for any other
/// segment, be it empty or a number.
pub proof fn lemma_tokenize_classifies(expression: Seq<char>, k: int)
    requires
        0 <= k < segments(expression).len(),
    ensures
        tokenize(expression).len() == segments(expression).len(),
        segments(expression)[k] == seq!['*'] ==> tokenize(expression)[k] == Step::Any,
        segments(expression)[k] != seq!['*'] ==> tokenize(expression)[k] == Step::Key(
            segments(expression)[k],
        ),
{
}

} // verus!
