//! The structural pre-check: braces and brackets balance outside comments.
use vstd::prelude::*;
use crate::error::RfError;
use crate::block::newlines;
use crate::text::chars_of;

verus! {

/// Whether position `k` lies in a comment: from a `@` to the end of its line.
pub open spec fn in_comment(s: Seq<char>, k: int) -> bool
    decreases k,
{
    if k < 0 || k >= s.len() || s[k] == '\n' {
        false
    } else if s[k] == '@' {
        true
    } else if k == 0 {
        false
    } else {
        in_comment(s, k - 1)
    }
}

/// Openers minus closers among the first `k` characters, comments left out.
pub open spec fn balance(s: Seq<char>, k: int, open: char, close: char) -> int
    decreases k,
{
    if k <= 0 || k > s.len() {
        0
    } else {
        balance(s, k - 1, open, close) + if in_comment(s, k - 1) {
            0int
        } else if s[k - 1] == open {
            1int
        } else if s[k - 1] == close {
            -1int
        } else {
            0int
        }
    }
}

/// Whether every closer of the pair has an opener before it and every opener is closed.
pub open spec fn pair_balanced(s: Seq<char>, open: char, close: char) -> bool {
    (forall|k: int| 0 <= k <= s.len() ==> #[trigger] balance(s, k, open, close) >= 0)
        && balance(s, s.len() as int, open, close) == 0
}

/// Whether the source is structurally well formed: `{}` and `[]` each balance.
pub open spec fn balanced(s: Seq<char>) -> bool {
    pair_balanced(s, '{', '}') && pair_balanced(s, '[', ']')
}

/// The 1-based line of position `k`.
pub open spec fn line_at(s: Seq<char>, k: int) -> int {
    newlines(s.subrange(0, k)) + 1int
}

/// Where the line holding position `k` starts.
pub open spec fn line_start(s: Seq<char>, k: int) -> int
    decreases k,
{
    if k <= 0 || k > s.len() {
        0
    } else if s[k - 1] == '\n' {
        k
    } else {
        line_start(s, k - 1)
    }
}

/// The 1-based column of position `k` in its line.
pub open spec fn col_at(s: Seq<char>, k: int) -> int {
    k - line_start(s, k) + 1
}

/// A count as a `usize`, held at `usize::MAX` when larger.
pub open spec fn clamp(x: int) -> usize {
    if x > usize::MAX {
        usize::MAX
    } else {
        x as usize
    }
}

/// Whether, among the first `k` characters, some pair has more closers than openers.
pub open spec fn negative_at(s: Seq<char>, k: int) -> bool {
    balance(s, k, '{', '}') < 0 || balance(s, k, '[', ']') < 0
}

/// Whether the closer at `k` is the first one without an opener.
pub open spec fn first_unmatched(s: Seq<char>, k: int) -> bool {
    0 <= k < s.len() && negative_at(s, k + 1) && forall|j: int| 0 <= j <= k ==> !#[trigger] negative_at(s, j)
}

/// Whether `p` holds the innermost opener of the pair still open at the end: the last one
/// that raised the balance to its final level.
pub open spec fn innermost_open(s: Seq<char>, p: int, open: char, close: char) -> bool {
    0 <= p < s.len() && s[p] == open && !in_comment(s, p) && balance(s, p, open, close) == balance(
        s,
        s.len() as int,
        open,
        close,
    ) - 1 && forall|q: int| p < q <= s.len() ==> #[trigger] balance(s, q, open, close) >= balance(
        s,
        s.len() as int,
        open,
        close,
    )
}

/// The 1-based line and column of position `k`, each held at `usize::MAX`.
fn position_of(s: &Vec<char>, k: usize) -> (r: (usize, usize))
    requires
        k <= s.len(),
    ensures
        r.0 == clamp(line_at(s@, k as int)),
        r.1 == clamp(col_at(s@, k as int)),
{
    let mut line: usize = 1;
    let mut start: usize = 0;
    let mut j: usize = 0;
    while j < k
        invariant
            j <= k <= s.len(),
            start <= j,
            start as int == line_start(s@, j as int),
            line == clamp(newlines(s@.subrange(0, j as int)) + 1int),
        decreases k - j,
    {
        assert(s@.subrange(0, j + 1).drop_last() == s@.subrange(0, j as int));
        if s[j] == '\n' {
            line = line.saturating_add(1);
            start = j + 1;
        }
        j = j + 1;
    }
    (line, (k - start).saturating_add(1))
}

/// Checks that braces and brackets balance outside comments (a comment runs from `@` to the
/// end of its line). It reports the first closer without an opener, at its line and column;
/// or else an opener left open, braces first, with the line of the innermost such opener and
/// the line and column of the end of the text.
pub fn validate_rf_syntax(code: &str) -> (r: Result<(), RfError>)
    ensures
        r is Ok <==> balanced(code@),
        (exists|k: int| first_unmatched(code@, k)) ==> r matches Err(RfError::UnmatchedClose { .. }),
        r matches Err(RfError::UnmatchedClose { closer, line, col }) ==> exists|k: int|
            first_unmatched(code@, k) && closer == code@[k] && line == clamp(line_at(code@, k))
                && col == clamp(col_at(code@, k)),
        r matches Err(RfError::UnclosedOpen { opener, line, col, open_line }) ==> {
            &&& forall|j: int| 0 <= j <= code@.len() ==> !#[trigger] negative_at(code@, j)
            &&& line == clamp(line_at(code@, code@.len() as int))
            &&& col == clamp(col_at(code@, code@.len() as int))
            &&& (opener == '{' && balance(code@, code@.len() as int, '{', '}') > 0 && exists|p: int|
                innermost_open(code@, p, '{', '}') && open_line == clamp(line_at(code@, p)))
                || (opener == '[' && balance(code@, code@.len() as int, '{', '}') == 0 && balance(
                code@,
                code@.len() as int,
                '[',
                ']',
            ) > 0 && exists|p: int|
                innermost_open(code@, p, '[', ']') && open_line == clamp(line_at(code@, p)))
        },
        r is Err ==> (r matches Err(RfError::UnmatchedClose { .. })) || (r matches Err(RfError::UnclosedOpen { .. })),
{
    let s = chars_of(code);
    let n = s.len();
    let mut k: usize = 0;
    let mut comment = false;
    let mut braces: Vec<usize> = Vec::new();
    let mut brackets: Vec<usize> = Vec::new();
    while k < n
        invariant
            n == s.len() == code@.len(),
            s@ == code@,
            k <= n,
            comment == (k > 0 && in_comment(s@, k - 1)),
            braces.len() == balance(s@, k as int, '{', '}'),
            brackets.len() == balance(s@, k as int, '[', ']'),
            forall|j: int| 0 <= j <= k ==> !#[trigger] negative_at(s@, j),
            forall|i: int| 0 <= i < braces.len() ==> {
                let p = #[trigger] braces@[i] as int;
                &&& p < k && s@[p] == '{' && !in_comment(s@, p)
                &&& balance(s@, p, '{', '}') == i
                &&& forall|q: int| p < q <= k ==> #[trigger] balance(s@, q, '{', '}') >= i + 1
            },
            forall|i: int| 0 <= i < brackets.len() ==> {
                let p = #[trigger] brackets@[i] as int;
                &&& p < k && s@[p] == '[' && !in_comment(s@, p)
                &&& balance(s@, p, '[', ']') == i
                &&& forall|q: int| p < q <= k ==> #[trigger] balance(s@, q, '[', ']') >= i + 1
            },
        decreases n - k,
    {
        let c = s[k];
        let live = c == '\n' || (!comment && c != '@');
        assert(live == !in_comment(s@, k as int));
        let ghost b0 = braces@;
        let ghost k0 = brackets@;
        if live && c == '}' && braces.len() == 0 {
            assert(negative_at(s@, k + 1));
            assert(first_unmatched(s@, k as int));
            let (line, col) = position_of(&s, k);
            return Err(RfError::UnmatchedClose { closer: '}', line, col });
        }
        if live && c == ']' && brackets.len() == 0 {
            assert(negative_at(s@, k + 1));
            assert(first_unmatched(s@, k as int));
            let (line, col) = position_of(&s, k);
            return Err(RfError::UnmatchedClose { closer: ']', line, col });
        }
        if live && c == '{' {
            braces.push(k);
        } else if live && c == '}' {
            braces.pop();
        } else if live && c == '[' {
            brackets.push(k);
        } else if live && c == ']' {
            brackets.pop();
        }
        comment = c != '\n' && (c == '@' || comment);
        proof {
            assert forall|i: int| 0 <= i < braces.len() implies {
                let p = #[trigger] braces@[i] as int;
                &&& p < k + 1 && s@[p] == '{' && !in_comment(s@, p)
                &&& balance(s@, p, '{', '}') == i
                &&& forall|q: int| p < q <= k + 1 ==> #[trigger] balance(s@, q, '{', '}') >= i + 1
            } by {
                if i < b0.len() {
                    assert(braces@[i] == b0[i]);
                }
            }
            assert forall|i: int| 0 <= i < brackets.len() implies {
                let p = #[trigger] brackets@[i] as int;
                &&& p < k + 1 && s@[p] == '[' && !in_comment(s@, p)
                &&& balance(s@, p, '[', ']') == i
                &&& forall|q: int| p < q <= k + 1 ==> #[trigger] balance(s@, q, '[', ']') >= i + 1
            } by {
                if i < k0.len() {
                    assert(brackets@[i] == k0[i]);
                }
            }
        }
        k = k + 1;
    }
    let (line, col) = position_of(&s, n);
    if braces.len() > 0 {
        let top = braces[braces.len() - 1];
        assert(innermost_open(s@, top as int, '{', '}'));
        let (open_line, _) = position_of(&s, top);
        return Err(RfError::UnclosedOpen { opener: '{', line, col, open_line });
    }
    if brackets.len() > 0 {
        let top = brackets[brackets.len() - 1];
        assert(innermost_open(s@, top as int, '[', ']'));
        let (open_line, _) = position_of(&s, top);
        return Err(RfError::UnclosedOpen { opener: '[', line, col, open_line });
    }
    assert forall|j: int| 0 <= j <= s@.len() implies #[trigger] balance(s@, j, '{', '}') >= 0 by {
        assert(!negative_at(s@, j));
    }
    assert forall|j: int| 0 <= j <= s@.len() implies #[trigger] balance(s@, j, '[', ']') >= 0 by {
        assert(!negative_at(s@, j));
    }
    assert(pair_balanced(s@, '{', '}'));
    assert(pair_balanced(s@, '[', ']'));
    Ok(())
}

} // verus!
