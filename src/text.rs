//! Text helpers over character sequences: splitting, joining and searching.
use vstd::prelude::*;

verus! {

/// The pieces of `s` between occurrences of `sep`, as `str::split` yields
/// them: always at least one piece, possibly empty ones.
pub open spec fn split(s: Seq<char>, sep: char) -> Seq<Seq<char>>
    decreases s.len(),
{
    if s.len() == 0 {
        seq![Seq::empty()]
    } else {
        let head = split(s.drop_last(), sep);
        if s.last() == sep {
            head.push(Seq::empty())
        } else {
            head.update(head.len() - 1, head.last().push(s.last()))
        }
    }
}

/// Splits `s` at every `sep`, keeping empty pieces.
pub fn split_on(s: &str, sep: char) -> (r: Vec<String>)
    ensures
        r@.map_values(|p: String| p@) == split(s@, sep),
{
    let n = s.unicode_len();
    let mut parts: Vec<String> = Vec::new();
    let mut start: usize = 0;
    let mut i: usize = 0;
    proof {
        assert(s@.subrange(0, 0) =~= Seq::<char>::empty());
        assert(parts@.map_values(|p: String| p@).push(s@.subrange(0, 0)) =~= seq![Seq::<char>::empty()]);
    }
    while i < n
        invariant
            n == s@.len(),
            start <= i <= n,
            split(s@.subrange(0, i as int), sep) == parts@.map_values(|p: String| p@).push(
                s@.subrange(start as int, i as int),
            ),
        decreases n - i,
    {
        let c = s.get_char(i);
        let ghost before = parts@.map_values(|p: String| p@);
        let ghost pre = s@.subrange(0, i + 1);
        proof {
            assert(pre.drop_last() =~= s@.subrange(0, i as int));
            assert(pre.last() == c);
        }
        if c == sep {
            let piece = s.substring_char(start, i).to_owned();
            parts.push(piece);
            start = i + 1;
            proof {
                assert(parts@.map_values(|p: String| p@) =~= before.push(piece@));
                assert(s@.subrange(start as int, i + 1) =~= Seq::<char>::empty());
            }
        } else {
            proof {
                assert(s@.subrange(start as int, i + 1) =~= s@.subrange(start as int, i as int).push(c));
                assert(split(pre, sep) =~= before.push(s@.subrange(start as int, i + 1)));
            }
        }
        i = i + 1;
    }
    let last = s.substring_char(start, n).to_owned();
    let ghost before = parts@.map_values(|p: String| p@);
    parts.push(last);
    proof {
        assert(parts@.map_values(|p: String| p@) =~= before.push(last@));
        assert(s@.subrange(0, n as int) =~= s@);
    }
    parts
}

/// `parts` laid end to end with `sep` between neighbours, as `join` does.
pub open spec fn join(parts: Seq<Seq<char>>, sep: char) -> Seq<char>
    decreases parts.len(),
{
    if parts.len() == 0 {
        Seq::empty()
    } else if parts.len() == 1 {
        parts[0]
    } else {
        join(parts.drop_last(), sep).push(sep) + parts.last()
    }
}

/// Whether `t` occurs in `s` as a contiguous run.
pub open spec fn occurs_in(t: Seq<char>, s: Seq<char>) -> bool {
    exists|i: int| 0 <= i && i + t.len() <= s.len() && #[trigger] s.subrange(i, i + t.len()) == t
}

/// `s` with no character equal to `c`.
pub open spec fn free_of(s: Seq<char>, c: char) -> bool {
    forall|j: int| 0 <= j < s.len() ==> s[j] != c
}

/// The text before the first `.` of a file name (all of it when there is none).
pub open spec fn stem(name: Seq<char>) -> Seq<char> {
    split(name, '.')[0]
}

/// Joins `parts` with a newline between neighbours.
pub fn join_lines(parts: &Vec<String>) -> (r: String)
    ensures
        r@ == join(parts@.map_values(|p: String| p@), '\n'),
{
    let ghost all = parts@.map_values(|p: String| p@);
    let mut out = String::new();
    let mut i: usize = 0;
    while i < parts.len()
        invariant
            i <= parts@.len(),
            all == parts@.map_values(|p: String| p@),
            out@ == join(all.subrange(0, i as int), '\n'),
        decreases parts@.len() - i,
    {
        proof {
            assert(all.subrange(0, i + 1).drop_last() =~= all.subrange(0, i as int));
        }
        if i > 0 {
            out.append("\n");
            proof {
                reveal_strlit("\n");
            }
        }
        out.append(parts[i].as_str());
        proof {
            if i == 0 {
                assert(out@ =~= all.subrange(0, 1)[0]);
            } else {
                assert(out@ =~= join(all.subrange(0, i as int), '\n').push('\n') + all[i as int]);
            }
        }
        i = i + 1;
    }
    proof {
        assert(all.subrange(0, parts@.len() as int) =~= all);
    }
    out
}

/// Whether `t` occurs in `s`.
pub fn contains_text(s: &str, t: &str) -> (r: bool)
    ensures
        r == occurs_in(t@, s@),
{
    let n = s.unicode_len();
    let m = t.unicode_len();
    if m > n {
        return false;
    }
    if m == 0 {
        proof {
            assert(s@.subrange(0, 0 + t@.len() as int) =~= t@);
        }
        return true;
    }
    let mut i: usize = 0;
    while i <= n - m
        invariant
            n == s@.len(),
            m == t@.len(),
            1 <= m <= n,
            i <= n - m + 1,
            forall|k: int| 0 <= k < i ==> #[trigger] s@.subrange(k, k + m) != t@,
        decreases n - m + 1 - i,
    {
        let mut j: usize = 0;
        let mut same = true;
        while j < m && same
            invariant
                n == s@.len(),
                m == t@.len(),
                i + m <= n,
                j <= m,
                same ==> forall|k: int| 0 <= k < j ==> s@[i + k] == t@[k],
                !same ==> s@.subrange(i as int, i + m) != t@,
            decreases m - j + (if same { 1int } else { 0int }),
        {
            if s.get_char(i + j) != t.get_char(j) {
                same = false;
                proof {
                    assert(s@.subrange(i as int, i + m)[j as int] != t@[j as int]);
                }
            } else {
                j = j + 1;
            }
        }
        if same {
            proof {
                assert(s@.subrange(i as int, i + m) =~= t@);
            }
            return true;
        }
        i = i + 1;
    }
    false
}

/// The text before the first `.` of `name`.
pub fn file_stem(name: &str) -> (r: String)
    ensures
        r@ == stem(name@),
{
    let mut parts = split_on(name, '.');
    proof {
        lemma_split_shape(name@, '.', '.');
        assert(parts@.map_values(|p: String| p@)[0] == parts@[0]@);
    }
    parts.swap_remove(0)
}

/// Splitting never yields nothing, and a piece holds no `c` where `c` is the
/// separator or absent from the text.
pub proof fn lemma_split_shape(s: Seq<char>, sep: char, c: char)
    requires
        c == sep || free_of(s, c),
    ensures
        split(s, sep).len() >= 1,
        forall|k: int| 0 <= k < split(s, sep).len() ==> free_of(#[trigger] split(s, sep)[k], c),
    decreases s.len(),
{
    if s.len() > 0 {
        lemma_split_shape(s.drop_last(), sep, c);
        let head = split(s.drop_last(), sep);
        if s.last() != sep {
            assert(s.last() != c);
            assert forall|k: int| 0 <= k < split(s, sep).len() implies free_of(
                #[trigger] split(s, sep)[k],
                c,
            ) by {
                if k == head.len() - 1 {
                    assert(split(s, sep)[k] == head.last().push(s.last()));
                }
            }
        }
    }
}

/// Appending text without `sep` extends the last piece.
pub proof fn lemma_split_append_free(x: Seq<char>, y: Seq<char>, sep: char)
    requires
        free_of(y, sep),
    ensures
        split(x + y, sep) == split(x, sep).update(
            split(x, sep).len() - 1,
            split(x, sep).last() + y,
        ),
    decreases y.len(),
{
    lemma_split_shape(x, sep, sep);
    if y.len() == 0 {
        assert(x + y =~= x);
        assert(split(x, sep).last() + y =~= split(x, sep).last());
        assert(split(x, sep).update(split(x, sep).len() - 1, split(x, sep).last() + y) =~= split(
            x,
            sep,
        ));
    } else {
        let y0 = y.drop_last();
        lemma_split_append_free(x, y0, sep);
        assert((x + y).drop_last() =~= x + y0);
        assert((x + y).last() == y.last());
        assert(split(x, sep).last() + y =~= (split(x, sep).last() + y0).push(y.last()));
        assert(split(x + y, sep) =~= split(x, sep).update(
            split(x, sep).len() - 1,
            split(x, sep).last() + y,
        ));
    }
}

/// Text without `sep` is a single piece.
pub proof fn lemma_split_free(y: Seq<char>, sep: char)
    requires
        free_of(y, sep),
    ensures
        split(y, sep) == seq![y],
{
    lemma_split_append_free(Seq::empty(), y, sep);
    assert(Seq::<char>::empty() + y =~= y);
    assert(Seq::<char>::empty() + y =~= y);
    assert(split(y, sep) =~= seq![y]);
}

/// Splitting undoes joining when no part holds the separator.
pub proof fn lemma_split_join(parts: Seq<Seq<char>>, sep: char)
    requires
        parts.len() >= 1,
        forall|k: int| 0 <= k < parts.len() ==> free_of(#[trigger] parts[k], sep),
    ensures
        split(join(parts, sep), sep) == parts,
    decreases parts.len(),
{
    if parts.len() == 1 {
        lemma_split_free(parts[0], sep);
        assert(parts =~= seq![parts[0]]);
    } else {
        let init = parts.drop_last();
        assert forall|k: int| 0 <= k < init.len() implies free_of(#[trigger] init[k], sep) by {
            assert(init[k] == parts[k]);
        }
        lemma_split_join(init, sep);
        let x = join(init, sep).push(sep);
        assert(x.drop_last() =~= join(init, sep));
        assert(split(x, sep) == init.push(Seq::empty()));
        assert(free_of(parts.last(), sep));
        lemma_split_append_free(x, parts.last(), sep);
        assert(Seq::<char>::empty() + parts.last() =~= parts.last());
        assert(split(join(parts, sep), sep) =~= parts);
    }
}

} // verus!
