//! Character-level text helpers: a lexicographic order on strings and
//! the chunking of long messages into presentable pieces.

use vstd::prelude::*;

verus! {

/// Lexicographic order on character sequences, by code point, with a
/// prefix ordered before every extension of it.
pub open spec fn lex_le(a: Seq<char>, b: Seq<char>) -> bool
    decreases a.len(),
{
    if a.len() == 0 {
        true
    } else if b.len() == 0 {
        false
    } else if (a[0] as u32) < (b[0] as u32) {
        true
    } else if (a[0] as u32) > (b[0] as u32) {
        false
    } else {
        lex_le(a.drop_first(), b.drop_first())
    }
}

/// `lex_le` relates every sequence to itself.
pub proof fn lemma_lex_le_refl(a: Seq<char>)
    ensures
        lex_le(a, a),
    decreases a.len(),
{
    if a.len() > 0 {
        lemma_lex_le_refl(a.drop_first());
    }
}

/// `lex_le` relates every pair of sequences one way or the other.
pub proof fn lemma_lex_le_total(a: Seq<char>, b: Seq<char>)
    ensures
        lex_le(a, b) || lex_le(b, a),
    decreases a.len(),
{
    if a.len() == 0 || b.len() == 0 {
    } else if (a[0] as u32) == (b[0] as u32) {
        lemma_lex_le_total(a.drop_first(), b.drop_first());
    }
}

/// `lex_le` is transitive.
pub proof fn lemma_lex_le_trans(a: Seq<char>, b: Seq<char>, c: Seq<char>)
    requires
        lex_le(a, b),
        lex_le(b, c),
    ensures
        lex_le(a, c),
    decreases a.len(),
{
    if a.len() == 0 || b.len() == 0 || c.len() == 0 {
    } else if (a[0] as u32) == (b[0] as u32) && (b[0] as u32) == (c[0] as u32) {
        lemma_lex_le_trans(a.drop_first(), b.drop_first(), c.drop_first());
    }
}

/// Decides `lex_le` on two string slices.
pub fn str_le(a: &str, b: &str) -> (r: bool)
    ensures
        r == lex_le(a@, b@),
    decreases a@.len(),
{
    let a_len = a.unicode_len();
    let b_len = b.unicode_len();
    if a_len == 0 {
        true
    } else if b_len == 0 {
        false
    } else {
        let ca = a.get_char(0) as u32;
        let cb = b.get_char(0) as u32;
        if ca < cb {
            true
        } else if ca > cb {
            false
        } else {
            let ra = a.substring_char(1, a_len);
            let rb = b.substring_char(1, b_len);
            assert(ra@ =~= a@.drop_first());
            assert(rb@ =~= b@.drop_first());
            str_le(ra, rb)
        }
    }
}

/// Number of characters a single chunk of a long message may carry.
pub const CHUNK_LEN: usize = 1992;

/// The text of the `k`-th piece that `split_str` produces from `s`:
/// the `k`-th run of at most `CHUNK_LEN` characters, opened with a
/// code fence on every piece but the first and closed on each.
pub open spec fn chunk_text(s: Seq<char>, k: int) -> Seq<char> {
    let lo = k * (CHUNK_LEN as int);
    let hi = if lo + (CHUNK_LEN as int) <= s.len() {
        lo + (CHUNK_LEN as int)
    } else {
        s.len() as int
    };
    let head: Seq<char> = if k == 0 {
        Seq::empty()
    } else {
        "```\n"@
    };
    head + s.subrange(lo, hi) + "\n```"@
}

/// Splits a long message into pieces whose character runs partition the
/// input, each closed (and, after the first, opened) with a code fence.
/// An empty input yields no pieces.
pub fn split_str(to_split: &str) -> (out: Vec<String>)
    ensures
        out@.len() == (to_split@.len() + CHUNK_LEN - 1) / (CHUNK_LEN as int),
        forall|k: int| 0 <= k < out@.len() ==> out@[k]@ == chunk_text(to_split@, k),
{
    let n = to_split.unicode_len();
    let mut out: Vec<String> = Vec::new();
    let mut start: usize = 0;
    while start < n
        invariant
            n == to_split@.len(),
            start == if (CHUNK_LEN as int) * out@.len() <= n {
                (CHUNK_LEN as int) * out@.len()
            } else {
                n as int
            },
            out@.len() > 0 ==> (CHUNK_LEN as int) * (out@.len() - 1) < n,
            forall|k: int| 0 <= k < out@.len() ==> out@[k]@ == chunk_text(to_split@, k),
        decreases n - start,
    {
        let end = if n - start > CHUNK_LEN {
            start + CHUNK_LEN
        } else {
            n
        };
        let chunk = to_split.substring_char(start, end);
        let mut piece = if out.len() == 0 {
            String::new()
        } else {
            String::from_str("```\n")
        };
        piece.append(chunk);
        piece.append("\n```");
        proof {
            assert(piece@ =~= chunk_text(to_split@, out@.len() as int));
        }
        out.push(piece);
        start = end;
    }
    proof {
        let c = out@.len() as int;
        let w = CHUNK_LEN as int;
        if n == 0 {
            assert(c == 0);
        } else {
            assert(w * (c - 1) < n <= w * c);
            assert(c == (n + w - 1) / w) by (nonlinear_arith)
                requires
                    w == 1992,
                    w * (c - 1) < n <= w * c,
            ;
        }
    }
    out
}

} // verus!
