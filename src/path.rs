//! Path patterns: splitting a path on '/' and recognising wildcard segments.
use vstd::prelude::*;

verus! {

/// One step of a pattern: `Some(text)` for a literal segment, `None` for the
/// wildcard segment written `{...}`.
pub type Key = Option<Seq<char>>;

/// A segment written `{...}`: it opens with '{' and closes with '}'.
pub open spec fn is_wildcard(s: Seq<char>) -> bool {
    s.len() >= 1 && s[0] == '{' && s[s.len() - 1] == '}'
}

/// Splits `p` on '/', with `cur` the text of the segment read so far; empty
/// segments are dropped.
pub open spec fn split_from(p: Seq<char>, cur: Seq<char>) -> Seq<Seq<char>>
    decreases p.len(),
{
    if p.len() == 0 {
        if cur.len() == 0 {
            seq![]
        } else {
            seq![cur]
        }
    } else if p[0] == '/' {
        let head: Seq<Seq<char>> = if cur.len() == 0 {
            seq![]
        } else {
            seq![cur]
        };
        head + split_from(p.drop_first(), seq![])
    } else {
        split_from(p.drop_first(), cur.push(p[0]))
    }
}

/// The non-empty '/'-separated segments of a path, in order.
pub open spec fn segments(p: Seq<char>) -> Seq<Seq<char>> {
    split_from(p, seq![])
}

/// The key a segment stands for in a pattern.
pub open spec fn key_of(s: Seq<char>) -> Key {
    if is_wildcard(s) {
        None
    } else {
        Some(s)
    }
}

/// The pattern a registered path denotes: its segments, with every `{...}`
/// collapsed to the wildcard.
pub open spec fn pattern_of(p: Seq<char>) -> Seq<Key> {
    segments(p).map_values(|s: Seq<char>| key_of(s))
}

/// Whether a pattern has no wildcard step.
pub open spec fn is_literal(q: Seq<Key>) -> bool {
    forall|i: int| 0 <= i < q.len() ==> (#[trigger] q[i]) is Some
}

/// Whether a segment is written `{...}`, which makes it a wildcard.
pub fn is_parameter_declaration(value: &str) -> (r: bool)
    ensures
        r == is_wildcard(value@),
{
    let n = value.unicode_len();
    if n == 0 {
        return false;
    }
    value.get_char(0) == '{' && value.get_char(n - 1) == '}'
}

/// Splits a path on '/' into its non-empty segments.
pub fn split_path(path: &str) -> (r: Vec<String>)
    ensures
        r@.map_values(|s: String| s@) == segments(path@),
{
    let n = path.unicode_len();
    let mut out: Vec<String> = Vec::new();
    let mut start: usize = 0;
    let mut i: usize = 0;
    assert(path@.subrange(0, n as int) =~= path@);
    assert(path@.subrange(0, 0) =~= seq![]);
    assert(out@.map_values(|s: String| s@) =~= seq![]);
    while i < n
        invariant
            n == path@.len(),
            start <= i <= n,
            out@.map_values(|s: String| s@) + split_from(
                path@.subrange(i as int, n as int),
                path@.subrange(start as int, i as int),
            ) == segments(path@),
        decreases n - i,
    {
        let c = path.get_char(i);
        let ghost rest = path@.subrange(i as int, n as int);
        let ghost cur = path@.subrange(start as int, i as int);
        assert(rest[0] == c);
        assert(rest.drop_first() =~= path@.subrange(i + 1, n as int));
        if c == '/' {
            let ghost old_out = out@.map_values(|s: String| s@);
            if start < i {
                let seg = path.substring_char(start, i).to_owned();
                out.push(seg);
                assert(out@.map_values(|s: String| s@) =~= old_out + seq![cur]);
            } else {
                assert(cur.len() == 0);
                assert(out@.map_values(|s: String| s@) =~= old_out + seq![]);
            }
            assert(path@.subrange(i + 1, i + 1) =~= seq![]);
            start = i + 1;
        } else {
            assert(cur.push(c) =~= path@.subrange(start as int, i + 1));
        }
        i = i + 1;
    }
    let ghost cur = path@.subrange(start as int, n as int);
    assert(path@.subrange(n as int, n as int).len() == 0);
    if start < n {
        let ghost old_out = out@.map_values(|s: String| s@);
        let seg = path.substring_char(start, n).to_owned();
        out.push(seg);
        assert(out@.map_values(|s: String| s@) =~= old_out + seq![cur]);
    } else {
        assert(out@.map_values(|s: String| s@) =~= out@.map_values(|s: String| s@) + seq![]);
    }
    out
}

} // verus!
