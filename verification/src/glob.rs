//! Shell-style patterns over names.
//!
//! In a pattern, `*` stands for any run of bytes, the empty one included,
//! and `?` for any single byte. Every other byte stands for itself.

use vstd::prelude::*;

verus! {

/// The byte `*`.
pub const STAR: u8 = 42;

/// The byte `?`.
pub const QUESTION: u8 = 63;

/// Whether the whole of `text` matches `pattern`.
pub open spec fn glob_matches(pattern: Seq<u8>, text: Seq<u8>) -> bool
    decreases pattern.len(), text.len(),
{
    if pattern.len() == 0 {
        text.len() == 0
    } else if pattern[0] == STAR {
        glob_matches(pattern.drop_first(), text) || (text.len() > 0 && glob_matches(
            pattern,
            text.drop_first(),
        ))
    } else {
        text.len() > 0 && (pattern[0] == QUESTION || pattern[0] == text[0]) && glob_matches(
            pattern.drop_first(),
            text.drop_first(),
        )
    }
}

/// Whether a name passes an optional pattern: without a pattern every name
/// passes.
pub open spec fn glob_accepts(pattern: Option<Seq<u8>>, name: Seq<u8>) -> bool {
    match pattern {
        Some(p) => glob_matches(p, name),
        None => true,
    }
}

/// Whether a pattern holds neither `*` nor `?`.
pub open spec fn is_literal(pattern: Seq<u8>) -> bool {
    forall|i: int| 0 <= i < pattern.len() ==> #[trigger] pattern[i] != STAR && pattern[i] != QUESTION
}

/// How matching at position `i` of the pattern and `j` of the text reduces
/// to matching at later positions.
proof fn glob_unfold(pattern: Seq<u8>, text: Seq<u8>, i: int, j: int)
    requires
        0 <= i <= pattern.len(),
        0 <= j <= text.len(),
    ensures
        i == pattern.len() ==> glob_matches(pattern.skip(i), text.skip(j)) == (j == text.len()),
        i < pattern.len() && pattern[i] == STAR ==> glob_matches(pattern.skip(i), text.skip(j)) == (
        glob_matches(pattern.skip(i + 1), text.skip(j)) || (j < text.len() && glob_matches(
            pattern.skip(i),
            text.skip(j + 1),
        ))),
        i < pattern.len() && pattern[i] != STAR ==> glob_matches(pattern.skip(i), text.skip(j)) == (
        j < text.len() && (pattern[i] == QUESTION || pattern[i] == text[j]) && glob_matches(
            pattern.skip(i + 1),
            text.skip(j + 1),
        )),
{
    if i < pattern.len() {
        assert(pattern.skip(i).drop_first() =~= pattern.skip(i + 1));
    }
    if j < text.len() {
        assert(text.skip(j).drop_first() =~= text.skip(j + 1));
    }
}

/// The pattern `*` matches every text.
pub proof fn star_matches_everything(text: Seq<u8>)
    ensures
        glob_matches(seq![STAR], text),
    decreases text.len(),
{
    let p = seq![STAR];
    assert(p[0] == STAR);
    assert(p.drop_first() =~= Seq::<u8>::empty());
    if text.len() > 0 {
        star_matches_everything(text.drop_first());
    } else {
        assert(glob_matches(p.drop_first(), text));
    }
}

/// A pattern without `*` and `?` matches exactly the text that equals it.
pub proof fn literal_matches_itself_only(pattern: Seq<u8>, text: Seq<u8>)
    requires
        is_literal(pattern),
    ensures
        glob_matches(pattern, text) == (pattern == text),
    decreases pattern.len(),
{
    if pattern.len() == 0 {
        assert(glob_matches(pattern, text) == (text.len() == 0));
        if text.len() == 0 {
            assert(pattern =~= text);
        }
    } else {
        assert(pattern[0] != STAR && pattern[0] != QUESTION);
        if text.len() > 0 {
            assert(is_literal(pattern.drop_first())) by {
                assert forall|i: int| 0 <= i < pattern.drop_first().len() implies #[trigger] pattern.drop_first()[i]
                    != STAR && pattern.drop_first()[i] != QUESTION by {
                    assert(pattern.drop_first()[i] == pattern[i + 1]);
                }
            }
            literal_matches_itself_only(pattern.drop_first(), text.drop_first());
            if pattern[0] == text[0] && pattern.drop_first() == text.drop_first() {
                assert(pattern =~= seq![pattern[0]] + pattern.drop_first());
                assert(text =~= seq![text[0]] + text.drop_first());
            }
        }
    }
}

/// Decides whether `text` matches `pattern`, in time proportional to the
/// product of their lengths.
pub fn glob_match(pattern: &[u8], text: &[u8]) -> (r: bool)
    ensures
        r == glob_matches(pattern@, text@),
{
    let m: usize = pattern.len();
    let n: usize = text.len();
    // `row[j]` tells whether the text from `j` on matches the pattern from
    // `i` on; `end` tells the same of the empty rest of the text.
    let mut row: Vec<bool> = Vec::new();
    let mut j: usize = 0;
    while j < n
        invariant
            j <= n,
            n == text@.len(),
            m == pattern@.len(),
            row@.len() == j,
            forall|k: int| 0 <= k < j ==> row@[k] == glob_matches(pattern@.skip(m as int), text@.skip(k)),
        decreases n - j,
    {
        proof {
            glob_unfold(pattern@, text@, m as int, j as int);
        }
        row.push(false);
        j += 1;
    }
    let mut end: bool = true;
    proof {
        glob_unfold(pattern@, text@, m as int, n as int);
    }
    let mut i: usize = m;
    while i > 0
        invariant
            i <= m,
            n == text@.len(),
            m == pattern@.len(),
            row@.len() == n,
            end == glob_matches(pattern@.skip(i as int), text@.skip(n as int)),
            forall|k: int| 0 <= k < n ==> row@[k] == glob_matches(pattern@.skip(i as int), text@.skip(k)),
        decreases i,
    {
        i -= 1;
        let p: u8 = pattern[i];
        let next_end: bool = p == STAR && end;
        proof {
            glob_unfold(pattern@, text@, i as int, n as int);
        }
        // `below` is the answer for the pattern from `i + 1` on and the text
        // from `j + 1` on; `after` is the answer for the pattern from `i` on
        // and the text from `j + 1` on.
        let mut below: bool = end;
        let mut after: bool = next_end;
        let mut j: usize = n;
        while j > 0
            invariant
                j <= n,
                i < m,
                n == text@.len(),
                m == pattern@.len(),
                p == pattern@[i as int],
                row@.len() == n,
                below == glob_matches(pattern@.skip(i + 1), text@.skip(j as int)),
                after == glob_matches(pattern@.skip(i as int), text@.skip(j as int)),
                forall|k: int| 0 <= k < j ==> row@[k] == glob_matches(pattern@.skip(i + 1), text@.skip(k)),
                forall|k: int| j <= k < n ==> row@[k] == glob_matches(pattern@.skip(i as int), text@.skip(k)),
            decreases j,
        {
            j -= 1;
            let here: bool = row[j];
            let value: bool = if p == STAR {
                here || after
            } else {
                (p == QUESTION || p == text[j]) && below
            };
            proof {
                glob_unfold(pattern@, text@, i as int, j as int);
            }
            row[j] = value;
            below = here;
            after = value;
        }
        end = next_end;
    }
    proof {
        assert(pattern@.skip(0) =~= pattern@);
        assert(text@.skip(0) =~= text@);
    }
    if n == 0 {
        end
    } else {
        row[0]
    }
}

/// Decides whether a name passes an optional pattern.
pub fn glob_accept(pattern: &Option<Vec<u8>>, name: &[u8]) -> (r: bool)
    ensures
        r == glob_accepts(
            match pattern {
                Some(p) => Some(p@),
                None => None,
            },
            name@,
        ),
{
    match pattern {
        Some(p) => glob_match(p.as_slice(), name),
        None => true,
    }
}

} // verus!
