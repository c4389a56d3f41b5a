use vstd::prelude::*;
use vstd::string::StrSliceExecFns;

verus! {

/// True when `p` is a prefix of `s`.
pub open spec fn starts_with(s: Seq<char>, p: Seq<char>) -> bool {
    p.len() <= s.len() && s.take(p.len() as int) == p
}

/// Greedy left-to-right split of `s` on the separator `sep`, with the
/// semantics of the standard library's `str::split` for a non-empty
/// separator: each leftmost occurrence of `sep` ends the current part and
/// the scan resumes just after it.  Splitting the empty sequence yields one
/// empty part.
pub open spec fn spec_split(s: Seq<char>, sep: Seq<char>) -> Seq<Seq<char>>
    decreases s.len(),
{
    if sep.len() == 0 || s.len() < sep.len() {
        seq![s]
    } else if s.take(sep.len() as int) == sep {
        seq![Seq::<char>::empty()].add(spec_split(s.skip(sep.len() as int), sep))
    } else {
        let r = spec_split(s.skip(1), sep);
        seq![seq![s[0]].add(r[0])].add(r.skip(1))
    }
}

/// A split always yields at least one part.
pub proof fn lemma_split_len(s: Seq<char>, sep: Seq<char>)
    ensures
        spec_split(s, sep).len() >= 1,
    decreases s.len(),
{
    if sep.len() == 0 || s.len() < sep.len() {
    } else if s.take(sep.len() as int) == sep {
        lemma_split_len(s.skip(sep.len() as int), sep);
    } else {
        lemma_split_len(s.skip(1), sep);
    }
}

/// The number of characters held by a sequence of parts.
pub open spec fn flat_len(parts: Seq<Seq<char>>) -> int
    decreases parts.len(),
{
    if parts.len() == 0 {
        0
    } else {
        parts[0].len() + flat_len(parts.skip(1))
    }
}

pub proof fn lemma_flat_len_nonneg(parts: Seq<Seq<char>>)
    ensures
        flat_len(parts) >= 0,
    decreases parts.len(),
{
    if parts.len() > 0 {
        lemma_flat_len_nonneg(parts.skip(1));
    }
}

pub proof fn lemma_flat_len_concat(a: Seq<Seq<char>>, b: Seq<Seq<char>>)
    ensures
        flat_len(a.add(b)) == flat_len(a) + flat_len(b),
    decreases a.len(),
{
    if a.len() == 0 {
        assert(a.add(b) =~= b);
    } else {
        assert(a.add(b).skip(1) =~= a.skip(1).add(b));
        lemma_flat_len_concat(a.skip(1), b);
    }
}

pub proof fn lemma_flat_len_singleton(p: Seq<char>)
    ensures
        flat_len(seq![p]) == p.len(),
{
    assert(seq![p].skip(1) =~= Seq::<Seq<char>>::empty());
    assert(seq![p].len() == 1);
    assert(seq![p][0] == p);
    assert(flat_len(Seq::<Seq<char>>::empty()) == 0);
}

/// Taking one more part adds that part's length to the flat length.
pub proof fn lemma_flat_len_take_succ(parts: Seq<Seq<char>>, i: int)
    requires
        0 <= i < parts.len(),
    ensures
        flat_len(parts.take(i + 1)) == flat_len(parts.take(i)) + parts[i].len(),
{
    assert(parts.take(i + 1) =~= parts.take(i).add(seq![parts[i]]));
    lemma_flat_len_concat(parts.take(i), seq![parts[i]]);
    lemma_flat_len_singleton(parts[i]);
}

/// The parts of a split, together with one character per separator consumed,
/// never exceed the length of the split sequence.
pub proof fn lemma_split_flat_le(s: Seq<char>, sep: Seq<char>)
    requires
        sep.len() >= 1,
    ensures
        flat_len(spec_split(s, sep)) + (spec_split(s, sep).len() - 1) <= s.len(),
    decreases s.len(),
{
    if s.len() < sep.len() {
        lemma_flat_len_singleton(s);
    } else if s.take(sep.len() as int) == sep {
        let r = spec_split(s.skip(sep.len() as int), sep);
        lemma_split_flat_le(s.skip(sep.len() as int), sep);
        lemma_split_len(s.skip(sep.len() as int), sep);
        lemma_flat_len_concat(seq![Seq::<char>::empty()], r);
        lemma_flat_len_singleton(Seq::<char>::empty());
    } else {
        let r = spec_split(s.skip(1), sep);
        lemma_split_flat_le(s.skip(1), sep);
        lemma_split_len(s.skip(1), sep);
        lemma_flat_len_concat(seq![seq![s[0]].add(r[0])], r.skip(1));
        lemma_flat_len_singleton(seq![s[0]].add(r[0]));
        assert(r =~= seq![r[0]].add(r.skip(1)));
        lemma_flat_len_concat(seq![r[0]], r.skip(1));
        lemma_flat_len_singleton(r[0]);
    }
}

/// The views of a vector of strings.
pub open spec fn views_of(parts: Seq<String>) -> Seq<Seq<char>> {
    parts.map_values(|p: String| p@)
}

/// Whether `p` is a prefix of `s`, decided character by character.
pub(crate) fn str_starts_with(s: &str, p: &str) -> (r: bool)
    ensures
        r == starts_with(s@, p@),
{
    let n = s.unicode_len();
    let m = p.unicode_len();
    if m > n {
        return false;
    }
    let mut j: usize = 0;
    while j < m
        invariant
            j <= m,
            m == p@.len(),
            n == s@.len(),
            m <= n,
            forall|k: int| 0 <= k < j ==> s@[k] == p@[k],
        decreases m - j,
    {
        if s.get_char(j) != p.get_char(j) {
            proof {
                assert(s@.take(m as int)[j as int] != p@[j as int]);
            }
            return false;
        }
        j += 1;
    }
    proof {
        assert(s@.take(m as int) =~= p@);
    }
    true
}

/// Whether `sep` occurs in `s` starting at character position `pos`.
fn matches_at(s: &str, sep: &str, pos: usize) -> (r: bool)
    requires
        pos <= s@.len(),
    ensures
        r == (pos + sep@.len() <= s@.len()
            && s@.subrange(pos as int, pos + sep@.len()) == sep@),
{
    let n = s.unicode_len();
    let m = sep.unicode_len();
    if m > n - pos {
        return false;
    }
    let mut j: usize = 0;
    while j < m
        invariant
            j <= m,
            m == sep@.len(),
            n == s@.len(),
            pos + m <= n,
            forall|k: int| 0 <= k < j ==> s@[pos + k] == sep@[k],
        decreases m - j,
    {
        if s.get_char(pos + j) != sep.get_char(j) {
            proof {
                assert(s@.subrange(pos as int, pos + m as int)[j as int] != sep@[j as int]);
            }
            return false;
        }
        j += 1;
    }
    proof {
        assert(s@.subrange(pos as int, pos + m as int) =~= sep@);
    }
    true
}

/// The remaining parts once the open part `p` absorbs the head of `parts`.
spec fn glue_first(p: Seq<char>, parts: Seq<Seq<char>>) -> Seq<Seq<char>>
    recommends
        parts.len() >= 1,
{
    seq![p.add(parts[0])].add(parts.skip(1))
}

/// Splits `s` on the non-empty separator `sep`, exactly as `spec_split`
/// describes.
pub(crate) fn split_str(s: &str, sep: &str) -> (parts: Vec<String>)
    requires
        sep@.len() >= 1,
    ensures
        views_of(parts@) == spec_split(s@, sep@),
{
    let n = s.unicode_len();
    let m = sep.unicode_len();
    let mut parts: Vec<String> = Vec::new();
    let mut start: usize = 0;
    let mut pos: usize = 0;
    proof {
        lemma_split_len(s@, sep@);
        assert(s@.skip(0) =~= s@);
        assert(s@.subrange(0, 0) =~= Seq::<char>::empty());
        assert(views_of(parts@) =~= Seq::<Seq<char>>::empty());
        assert(glue_first(Seq::<char>::empty(), spec_split(s@, sep@)) =~~= spec_split(s@, sep@));
        assert(views_of(parts@).add(spec_split(s@, sep@)) =~= spec_split(s@, sep@));
    }
    while pos < n
        invariant
            n == s@.len(),
            m == sep@.len(),
            m >= 1,
            start <= pos <= n,
            spec_split(s@, sep@) == views_of(parts@).add(
                glue_first(s@.subrange(start as int, pos as int), spec_split(s@.skip(pos as int), sep@)),
            ),
        decreases n - pos,
    {
        if matches_at(s, sep, pos) {
            let part = s.substring_char(start, pos).to_owned();
            proof {
                let rem = s@.skip(pos as int);
                assert(rem.take(m as int) =~= s@.subrange(pos as int, pos + m as int));
                assert(rem.skip(m as int) =~= s@.skip(pos + m as int));
                let x = spec_split(s@.skip((pos + m) as int), sep@);
                assert(spec_split(rem, sep@) == seq![Seq::<char>::empty()].add(x));
                lemma_split_len(s@.skip((pos + m) as int), sep@);
                assert(glue_first(
                    s@.subrange(start as int, pos as int),
                    spec_split(rem, sep@),
                ) =~~= seq![s@.subrange(start as int, pos as int)].add(x));
                assert(glue_first(Seq::<char>::empty(), x) =~~= x);
                assert(views_of(parts@.push(part)) =~= views_of(parts@).push(
                    s@.subrange(start as int, pos as int),
                ));
                assert(views_of(parts@).push(s@.subrange(start as int, pos as int)).add(x)
                    =~~= views_of(parts@).add(
                    seq![s@.subrange(start as int, pos as int)].add(x),
                ));
            }
            parts.push(part);
            start = pos + m;
            pos = start;
            proof {
                assert(s@.subrange(start as int, pos as int) =~= Seq::<char>::empty());
            }
        } else {
            proof {
                let rem = s@.skip(pos as int);
                assert(rem.len() == n - pos);
                if rem.len() < m {
                    assert(spec_split(rem, sep@) == seq![rem]);
                    assert(s@.skip((pos + 1) as int).len() < m);
                    assert(spec_split(s@.skip((pos + 1) as int), sep@)
                        == seq![s@.skip((pos + 1) as int)]);
                    assert(glue_first(s@.subrange(start as int, pos as int), seq![rem])
                        =~~= glue_first(
                        s@.subrange(start as int, (pos + 1) as int),
                        seq![s@.skip((pos + 1) as int)],
                    ));
                } else {
                    assert(rem.take(m as int) =~= s@.subrange(pos as int, pos + m as int));
                    assert(rem.take(m as int) != sep@);
                    let r = spec_split(rem.skip(1), sep@);
                    assert(rem.skip(1) =~= s@.skip((pos + 1) as int));
                    lemma_split_len(rem.skip(1), sep@);
                    assert(spec_split(rem, sep@) == seq![seq![rem[0]].add(r[0])].add(r.skip(1)));
                    assert(rem[0] == s@[pos as int]);
                    assert(s@.subrange(start as int, (pos + 1) as int)
                        =~= s@.subrange(start as int, pos as int).push(s@[pos as int]));
                    assert(glue_first(
                        s@.subrange(start as int, pos as int),
                        spec_split(rem, sep@),
                    ) =~~= glue_first(s@.subrange(start as int, (pos + 1) as int), r));
                }
            }
            pos += 1;
        }
    }
    let last = s.substring_char(start, n).to_owned();
    proof {
        assert(s@.skip(n as int).len() == 0);
        assert(spec_split(s@.skip(n as int), sep@) == seq![s@.skip(n as int)]);
        assert(glue_first(
            s@.subrange(start as int, n as int),
            seq![s@.skip(n as int)],
        ) =~~= seq![s@.subrange(start as int, n as int)]);
        assert(views_of(parts@.push(last)) =~= views_of(parts@).push(
            s@.subrange(start as int, n as int),
        ));
        assert(views_of(parts@).push(s@.subrange(start as int, n as int))
            =~~= views_of(parts@).add(seq![s@.subrange(start as int, n as int)]));
    }
    parts.push(last);
    parts
}

/// Drops a two-character side marker (such as `a/` or `b/`) from the front of
/// a path token; a token shorter than the marker yields the empty path.
pub open spec fn strip2(s: Seq<char>) -> Seq<char> {
    if s.len() >= 2 {
        s.skip(2)
    } else {
        Seq::empty()
    }
}

pub(crate) fn strip_side_marker(s: &str) -> (r: String)
    ensures
        r@ == strip2(s@),
{
    let n = s.unicode_len();
    if n >= 2 {
        let sub = s.substring_char(2, n);
        proof {
            assert(s@.subrange(2, n as int) =~= s@.skip(2));
        }
        sub.to_owned()
    } else {
        String::new()
    }
}

/// Drops the one-character diff marker from the front of a content line.
pub(crate) fn strip_first(s: &str) -> (r: String)
    requires
        s@.len() >= 1,
    ensures
        r@ == s@.skip(1),
{
    let n = s.unicode_len();
    let sub = s.substring_char(1, n);
    proof {
        assert(s@.subrange(1, n as int) =~= s@.skip(1));
    }
    sub.to_owned()
}

/// Whether the first character of `s` is `c`.
pub(crate) fn first_char_is(s: &str, c: char) -> (r: bool)
    ensures
        r == (s@.len() >= 1 && s@[0] == c),
{
    let n = s.unicode_len();
    if n == 0 {
        false
    } else {
        s.get_char(0) == c
    }
}

} // verus!
