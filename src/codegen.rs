//! Embedding a program's source text in the source of a host program.
use vstd::prelude::*;
use crate::text::{chars_of, string_of};

verus! {

/// What one source character becomes inside a double-quoted string literal: `\` and `"`
/// are escaped, a carriage return is dropped, a line break becomes `\n`.
pub open spec fn escape_char(c: char) -> Seq<char> {
    if c == '\\' {
        seq!['\\', '\\']
    } else if c == '"' {
        seq!['\\', '"']
    } else if c == '\r' {
        Seq::empty()
    } else if c == '\n' {
        seq!['\\', 'n']
    } else {
        seq![c]
    }
}

/// The source text escaped character by character.
pub open spec fn escaped(s: Seq<char>) -> Seq<char>
    decreases s.len(),
{
    if s.len() == 0 {
        Seq::empty()
    } else {
        escaped(s.drop_last()) + escape_char(s.last())
    }
}

/// `t` with every occurrence of `pat`, scanning left to right without overlap, replaced by
/// `rep`.
pub open spec fn replace_all(t: Seq<char>, pat: Seq<char>, rep: Seq<char>) -> Seq<char>
    decreases t.len(),
{
    if pat.len() == 0 || t.len() < pat.len() {
        t
    } else if t.subrange(0, pat.len() as int) == pat {
        rep + replace_all(t.skip(pat.len() as int), pat, rep)
    } else {
        seq![t[0]] + replace_all(t.skip(1), pat, rep)
    }
}

/// The marker in a host template that stands for the escaped program text.
pub open spec fn placeholder() -> Seq<char> {
    seq!['_', '_', 'R', 'F', '_', 'C', 'O', 'D', 'E', '_', 'E', 'S', 'C', 'A', 'P', 'E', 'D', '_', '_']
}

fn escape_source(s: &Vec<char>) -> (r: Vec<char>)
    ensures
        r@ == escaped(s@),
{
    let mut out: Vec<char> = Vec::new();
    let mut k: usize = 0;
    while k < s.len()
        invariant
            k <= s.len(),
            out@ == escaped(s@.subrange(0, k as int)),
        decreases s.len() - k,
    {
        assert(s@.subrange(0, k + 1).drop_last() == s@.subrange(0, k as int));
        let c = s[k];
        if c == '\\' {
            out.push('\\');
            out.push('\\');
        } else if c == '"' {
            out.push('\\');
            out.push('"');
        } else if c == '\r' {
        } else if c == '\n' {
            out.push('\\');
            out.push('n');
        } else {
            out.push(c);
        }
        assert(out@ == escaped(s@.subrange(0, k + 1)));
        k = k + 1;
    }
    assert(s@.subrange(0, s.len() as int) == s@);
    out
}

fn occurs_at(t: &Vec<char>, i: usize, pat: &Vec<char>) -> (r: bool)
    requires
        i <= t.len(),
    ensures
        r == (pat.len() <= t.len() - i && t@.subrange(i as int, i + pat.len()) == pat@),
{
    if pat.len() > t.len() - i {
        return false;
    }
    let mut k: usize = 0;
    while k < pat.len()
        invariant
            k <= pat.len() <= t.len() - i,
            forall|j: int| 0 <= j < k ==> t@[i + j] == pat@[j],
        decreases pat.len() - k,
    {
        if t[i + k] != pat[k] {
            assert(t@.subrange(i as int, i + pat.len())[k as int] != pat@[k as int]);
            return false;
        }
        k = k + 1;
    }
    assert(t@.subrange(i as int, i + pat.len()) =~= pat@);
    true
}

/// The host program: `template` with each occurrence of the marker `__RF_CODE_ESCAPED__`
/// replaced by `code`, escaped so that it reads as the body of a string literal.
pub fn generate_rust_program(code: &str, template: &str) -> (r: String)
    ensures
        r@ == replace_all(template@, placeholder(), escaped(code@)),
{
    let src = chars_of(code);
    let rep = escape_source(&src);
    let t = chars_of(template);
    let pat: Vec<char> = vec!['_', '_', 'R', 'F', '_', 'C', 'O', 'D', 'E', '_', 'E', 'S', 'C', 'A', 'P', 'E', 'D', '_', '_'];
    assert(pat@ == placeholder());
    let mut out: Vec<char> = Vec::new();
    let mut i: usize = 0;
    assert(t@.skip(0) == t@);
    while i < t.len()
        invariant
            i <= t.len(),
            pat@ == placeholder(),
            replace_all(t@, pat@, rep@) == out@ + replace_all(t@.skip(i as int), pat@, rep@),
        decreases t.len() - i,
    {
        let ghost rest = t@.skip(i as int);
        let ghost before = out@;
        if occurs_at(&t, i, &pat) {
            assert(rest.subrange(0, pat@.len() as int) == t@.subrange(i as int, i + pat.len()));
            assert(rest.skip(pat@.len() as int) == t@.skip(i + pat.len()));
            let mut k: usize = 0;
            while k < rep.len()
                invariant
                    k <= rep.len(),
                    out@ == before + rep@.subrange(0, k as int),
                decreases rep.len() - k,
            {
                out.push(rep[k]);
                k = k + 1;
            }
            assert(rep@.subrange(0, rep.len() as int) == rep@);
            assert(before + (rep@ + replace_all(t@.skip(i + pat.len()), pat@, rep@)) =~= out@ + replace_all(t@.skip(i + pat.len()), pat@, rep@));
            i = i + pat.len();
        } else {
            assert(rest.len() >= pat@.len() ==> rest.subrange(0, pat@.len() as int) == t@.subrange(i as int, i + pat.len()));
            assert(rest.skip(1) == t@.skip(i + 1));
            out.push(t[i]);
            proof {
                if rest.len() < pat@.len() {
                    lemma_replace_short(rest, pat@, rep@);
                    lemma_replace_short(rest.skip(1), pat@, rep@);
                }
            }
            assert(before + (seq![t@[i as int]] + replace_all(t@.skip(i + 1), pat@, rep@)) =~= out@ + replace_all(t@.skip(i + 1), pat@, rep@));
            i = i + 1;
        }
    }
    assert(t@.skip(i as int).len() == 0);
    assert(out@ + Seq::<char>::empty() =~= out@);
    string_of(out.as_slice())
}

proof fn lemma_replace_short(t: Seq<char>, pat: Seq<char>, rep: Seq<char>)
    requires
        t.len() < pat.len(),
    ensures
        replace_all(t, pat, rep) == t,
{
}

} // verus!
