//! Operations on character sequences: matching, replacing and splitting.

use vstd::prelude::*;

verus! {

/// The views of a sequence of character vectors.
pub open spec fn views(v: Seq<Vec<char>>) -> Seq<Seq<char>> {
    Seq::new(v.len(), |i: int| v[i]@)
}

/// Whether `pat` occurs in `s` at position `i`.
pub open spec fn occurs_at(s: Seq<char>, pat: Seq<char>, i: int) -> bool {
    0 <= i && i + pat.len() <= s.len() && s.subrange(i, i + pat.len()) == pat
}

/// Whether `c` does not occur in `s`.
pub open spec fn free_of(s: Seq<char>, c: char) -> bool {
    forall|i: int| 0 <= i < s.len() ==> s[i] != c
}

/// A copy of the characters of `s` from position `from` up to `to`.
pub fn slice_of(s: &Vec<char>, from: usize, to: usize) -> (res: Vec<char>)
    requires
        from <= to <= s@.len(),
    ensures
        res@ == s@.subrange(from as int, to as int),
{
    let mut v: Vec<char> = Vec::new();
    v.extend_from_slice(&s.as_slice()[from..to]);
    assert(v@ =~= s@.subrange(from as int, to as int));
    v
}

/// Whether `pat` occurs in `s` at position `i` (a bounds-checked comparison).
pub fn matches_at(s: &Vec<char>, pat: &Vec<char>, i: usize) -> (res: bool)
    ensures
        res == occurs_at(s@, pat@, i as int),
{
    if i > s.len() || pat.len() > s.len() - i {
        return false;
    }
    let mut j: usize = 0;
    while j < pat.len()
        invariant
            i + pat.len() <= s.len(),
            j <= pat@.len(),
            forall|k: int| 0 <= k < j ==> s@[i + k] == pat@[k],
        decreases pat@.len() - j,
    {
        if s[i + j] != pat[j] {
            assert(s@.subrange(i as int, i + pat@.len())[j as int] != pat@[j as int]);
            return false;
        }
        j += 1;
    }
    assert(s@.subrange(i as int, i + pat@.len()) =~= pat@);
    true
}

/// The pieces of `s` between the occurrences of the non-empty `sep`, found
/// left to right without overlap; there is always at least one piece.
pub open spec fn split_by(s: Seq<char>, sep: Seq<char>) -> Seq<Seq<char>>
    decreases s.len(),
{
    if sep.len() == 0 || s.len() < sep.len() {
        seq![s]
    } else if s.take(sep.len() as int) == sep {
        seq![Seq::<char>::empty()] + split_by(s.skip(sep.len() as int), sep)
    } else {
        let rest = split_by(s.drop_first(), sep);
        rest.update(0, seq![s[0]] + rest[0])
    }
}

/// A split always yields at least one piece.
pub proof fn lemma_split_nonempty(s: Seq<char>, sep: Seq<char>)
    ensures
        split_by(s, sep).len() >= 1,
    decreases s.len(),
{
    if sep.len() == 0 || s.len() < sep.len() {
    } else if s.take(sep.len() as int) == sep {
        lemma_split_nonempty(s.skip(sep.len() as int), sep);
    } else {
        lemma_split_nonempty(s.drop_first(), sep);
    }
}

proof fn lemma_split_step(s: Seq<char>, sep: Seq<char>, i: int)
    requires
        sep.len() > 0,
        0 <= i < s.len(),
    ensures
        occurs_at(s, sep, i) ==> split_by(s.skip(i), sep) == seq![Seq::<char>::empty()]
            + split_by(s.skip(i + sep.len()), sep),
        !occurs_at(s, sep, i) ==> split_by(s.skip(i), sep) == split_by(s.skip(i + 1), sep).update(
            0,
            seq![s[i]] + split_by(s.skip(i + 1), sep)[0],
        ),
{
    let t = s.skip(i);
    assert(t.drop_first() =~= s.skip(i + 1));
    if t.len() >= sep.len() {
        assert(t.take(sep.len() as int) =~= s.subrange(i, i + sep.len()));
        assert(t.skip(sep.len() as int) =~= s.skip(i + sep.len()));
    } else {
        assert(!occurs_at(s, sep, i));
        assert(split_by(t.drop_first(), sep) == seq![t.drop_first()]);
        assert(seq![t[0]] + t.drop_first() =~= t);
        assert(split_by(t, sep) =~= seq![t.drop_first()].update(0, seq![t[0]] + t.drop_first()));
    }
}

/// The pieces of `s` between the occurrences of the non-empty `sep`.
pub fn split(s: &Vec<char>, sep: &Vec<char>) -> (res: Vec<Vec<char>>)
    requires
        sep@.len() > 0,
    ensures
        views(res@) == split_by(s@, sep@),
{
    let mut pieces: Vec<Vec<char>> = Vec::new();
    let mut cur: Vec<char> = Vec::new();
    let mut i: usize = 0;
    assert(s@.skip(0) =~= s@);
    proof {
        lemma_split_nonempty(s@, sep@);
    }
    assert(views(pieces@) + seq![cur@ + split_by(s@, sep@)[0]] + split_by(s@, sep@).drop_first()
        =~= split_by(s@, sep@));
    while i < s.len()
        invariant
            sep@.len() > 0,
            i <= s@.len(),
            split_by(s@.skip(i as int), sep@).len() >= 1,
            views(pieces@) + seq![cur@ + split_by(s@.skip(i as int), sep@)[0]] + split_by(
                s@.skip(i as int),
                sep@,
            ).drop_first() == split_by(s@, sep@),
        decreases s@.len() - i,
    {
        proof {
            lemma_split_step(s@, sep@, i as int);
        }
        let ghost r = split_by(s@.skip(i as int), sep@);
        if matches_at(s, sep, i) {
            let ghost r2 = split_by(s@.skip(i + sep@.len()), sep@);
            proof {
                lemma_split_nonempty(s@.skip(i + sep@.len()), sep@);
            }
            let ghost old_pieces = views(pieces@);
            let ghost old_cur = cur@;
            pieces.push(cur);
            cur = Vec::new();
            assert(views(pieces@) =~= old_pieces.push(old_cur));
            assert(views(pieces@) + seq![cur@ + r2[0]] + r2.drop_first() =~= old_pieces + seq![
                old_cur + r[0]] + r.drop_first());
            i = i + sep.len();
        } else {
            let ghost r2 = split_by(s@.skip(i + 1), sep@);
            proof {
                lemma_split_nonempty(s@.skip(i + 1), sep@);
            }
            let ghost old_cur = cur@;
            cur.push(s[i]);
            assert(cur@ + r2[0] =~= old_cur + r[0]);
            assert(r2.drop_first() =~= r.drop_first());
            i = i + 1;
        }
    }
    let ghost last = split_by(s@.skip(i as int), sep@);
    assert(s@.skip(i as int) =~= Seq::<char>::empty());
    assert(last == seq![Seq::<char>::empty()]);
    let ghost old_pieces = views(pieces@);
    let ghost old_cur = cur@;
    pieces.push(cur);
    assert(old_cur + Seq::<char>::empty() =~= old_cur);
    assert(views(pieces@) =~= old_pieces + seq![old_cur + last[0]] + last.drop_first());
    pieces
}

/// Two sequences that lack `c` make a sequence that lacks it.
pub proof fn lemma_free_concat(a: Seq<char>, b: Seq<char>, c: char)
    requires
        free_of(a, c),
        free_of(b, c),
    ensures
        free_of(a + b, c),
{
    assert forall|i: int| 0 <= i < (a + b).len() implies (a + b)[i] != c by {
        if i < a.len() {
            assert((a + b)[i] == a[i]);
        } else {
            assert((a + b)[i] == b[i - a.len()]);
        }
    }
}

/// The members of `ms` joined by `sep`.
pub open spec fn join(ms: Seq<Seq<char>>, sep: Seq<char>) -> Seq<char>
    decreases ms.len(),
{
    if ms.len() == 0 {
        Seq::empty()
    } else if ms.len() == 1 {
        ms[0]
    } else {
        ms[0] + sep + join(ms.drop_first(), sep)
    }
}

/// Members and a separator that lack `c` join into a sequence that lacks it.
pub proof fn lemma_join_free(ms: Seq<Seq<char>>, sep: Seq<char>, c: char)
    requires
        free_of(sep, c),
        forall|k: int| 0 <= k < ms.len() ==> free_of(#[trigger] ms[k], c),
    ensures
        free_of(join(ms, sep), c),
    decreases ms.len(),
{
    if ms.len() == 0 {
    } else if ms.len() == 1 {
        assert(free_of(ms[0], c));
    } else {
        assert forall|k: int| 0 <= k < ms.drop_first().len() implies free_of(
            #[trigger] ms.drop_first()[k],
            c,
        ) by {
            assert(ms.drop_first()[k] == ms[k + 1]);
        }
        lemma_join_free(ms.drop_first(), sep, c);
        assert(free_of(ms[0], c));
        lemma_free_concat(ms[0], sep, c);
        lemma_free_concat(ms[0] + sep, join(ms.drop_first(), sep), c);
    }
}

/// Splitting joined members on their separator gives the members back, when
/// no member holds the separator's first character.
pub proof fn lemma_split_join(ms: Seq<Seq<char>>, sep: Seq<char>)
    requires
        ms.len() >= 1,
        sep.len() > 0,
        forall|k: int| 0 <= k < ms.len() ==> free_of(#[trigger] ms[k], sep[0]),
    ensures
        split_by(join(ms, sep), sep) == ms,
    decreases ms.len(),
{
    if ms.len() == 1 {
        assert(free_of(ms[0], sep[0]));
        lemma_split_absent(ms[0], sep);
        assert(seq![ms[0]] =~= ms);
    } else {
        assert forall|k: int| 0 <= k < ms.drop_first().len() implies free_of(
            #[trigger] ms.drop_first()[k],
            sep[0],
        ) by {
            assert(ms.drop_first()[k] == ms[k + 1]);
        }
        lemma_split_join(ms.drop_first(), sep);
        assert(free_of(ms[0], sep[0]));
        lemma_split_prefix(ms[0], sep, join(ms.drop_first(), sep));
        assert(seq![ms[0]] + ms.drop_first() =~= ms);
    }
}

/// Joining with a first member extended at its front extends the whole.
pub proof fn lemma_join_extend_first(r: Seq<Seq<char>>, y: Seq<char>, sep: Seq<char>)
    requires
        r.len() >= 1,
    ensures
        join(r.update(0, y + r[0]), sep) == y + join(r, sep),
{
    let r2 = r.update(0, y + r[0]);
    if r.len() >= 2 {
        assert(r2.drop_first() =~= r.drop_first());
        assert(y + r[0] + sep + join(r.drop_first(), sep) =~= y + (r[0] + sep + join(
            r.drop_first(),
            sep,
        )));
    }
}

/// Joining two non-empty lists puts the separator between their joins.
pub proof fn lemma_join_append(a: Seq<Seq<char>>, b: Seq<Seq<char>>, sep: Seq<char>)
    requires
        a.len() >= 1,
        b.len() >= 1,
    ensures
        join(a + b, sep) == join(a, sep) + sep + join(b, sep),
    decreases a.len(),
{
    assert((a + b)[0] == a[0]);
    if a.len() == 1 {
        assert((a + b).drop_first() =~= b);
    } else {
        assert((a + b).drop_first() =~= a.drop_first() + b);
        lemma_join_append(a.drop_first(), b, sep);
        assert(a[0] + sep + (join(a.drop_first(), sep) + sep + join(b, sep)) =~= a[0] + sep
            + join(a.drop_first(), sep) + sep + join(b, sep));
    }
}

/// Joining with the last member extended at its end extends the whole.
pub proof fn lemma_join_extend_last(a: Seq<Seq<char>>, x: Seq<char>, sep: Seq<char>)
    requires
        a.len() >= 1,
    ensures
        join(a.drop_last().push(a.last() + x), sep) == join(a, sep) + x,
{
    if a.len() == 1 {
        assert(a.drop_last().push(a.last() + x) =~= seq![a[0] + x]);
    } else {
        let d = a.drop_last();
        assert(d.push(a.last() + x) =~= d + seq![a.last() + x]);
        assert(a =~= d + seq![a.last()]);
        lemma_join_append(d, seq![a.last() + x], sep);
        lemma_join_append(d, seq![a.last()], sep);
        assert(join(d, sep) + sep + (a.last() + x) =~= join(d, sep) + sep + a.last() + x);
    }
}

/// Joining the pieces of a split with its separator gives the text back.
pub proof fn lemma_join_split(s: Seq<char>, sep: Seq<char>)
    requires
        sep.len() > 0,
    ensures
        join(split_by(s, sep), sep) == s,
    decreases s.len(),
{
    if s.len() < sep.len() {
    } else if s.take(sep.len() as int) == sep {
        let rest = s.skip(sep.len() as int);
        lemma_join_split(rest, sep);
        lemma_split_nonempty(rest, sep);
        let pieces = split_by(s, sep);
        assert(pieces.drop_first() =~= split_by(rest, sep));
        assert(Seq::<char>::empty() + sep + rest =~= s);
    } else {
        let r = split_by(s.drop_first(), sep);
        lemma_split_nonempty(s.drop_first(), sep);
        lemma_join_split(s.drop_first(), sep);
        lemma_join_extend_first(r, seq![s[0]], sep);
        assert(seq![s[0]] + s.drop_first() =~= s);
    }
}

/// Splitting on a separator whose first character `s` lacks yields `s` alone.
pub proof fn lemma_split_absent(s: Seq<char>, sep: Seq<char>)
    requires
        sep.len() > 0,
        free_of(s, sep[0]),
    ensures
        split_by(s, sep) == seq![s],
    decreases s.len(),
{
    if s.len() >= sep.len() {
        assert(s.take(sep.len() as int)[0] == s[0]);
        assert(s.take(sep.len() as int) != sep);
        assert(free_of(s.drop_first(), sep[0])) by {
            assert forall|i: int| 0 <= i < s.drop_first().len() implies s.drop_first()[i]
                != sep[0] by {
                assert(s.drop_first()[i] == s[i + 1]);
            }
        }
        lemma_split_absent(s.drop_first(), sep);
        assert(seq![s[0]] + s.drop_first() =~= s);
        assert(seq![s.drop_first()].update(0, seq![s[0]] + s.drop_first()) =~= seq![s]);
    }
}

/// A piece free of the separator's first character, then the separator, then
/// the rest: the piece comes first, then the pieces of the rest.
pub proof fn lemma_split_prefix(a: Seq<char>, sep: Seq<char>, rest: Seq<char>)
    requires
        sep.len() > 0,
        free_of(a, sep[0]),
    ensures
        split_by(a + sep + rest, sep) == seq![a] + split_by(rest, sep),
    decreases a.len(),
{
    let s = a + sep + rest;
    if a.len() == 0 {
        assert(s =~= sep + rest);
        assert(s.take(sep.len() as int) =~= sep);
        assert(s.skip(sep.len() as int) =~= rest);
        assert(a =~= Seq::<char>::empty());
    } else {
        assert(s.take(sep.len() as int)[0] == a[0]);
        assert(s.take(sep.len() as int) != sep);
        assert(free_of(a.drop_first(), sep[0])) by {
            assert forall|i: int| 0 <= i < a.drop_first().len() implies a.drop_first()[i]
                != sep[0] by {
                assert(a.drop_first()[i] == a[i + 1]);
            }
        }
        lemma_split_prefix(a.drop_first(), sep, rest);
        assert(s.drop_first() =~= a.drop_first() + sep + rest);
        let r = split_by(s.drop_first(), sep);
        assert(seq![s[0]] + a.drop_first() =~= a);
        assert(r.update(0, seq![s[0]] + r[0]) =~= seq![a] + split_by(rest, sep));
    }
}

/// When `c` is not in the separator and no piece holds it, neither does the
/// whole.
pub proof fn lemma_split_pieces_free(s: Seq<char>, sep: Seq<char>, c: char)
    requires
        sep.len() > 0,
        free_of(sep, c),
        forall|k: int| 0 <= k < split_by(s, sep).len() ==> free_of(#[trigger] split_by(s, sep)[k], c),
    ensures
        free_of(s, c),
    decreases s.len(),
{
    if sep.len() == 0 || s.len() < sep.len() {
        assert(free_of(split_by(s, sep)[0], c));
    } else if s.take(sep.len() as int) == sep {
        let rest = s.skip(sep.len() as int);
        let pieces = split_by(s, sep);
        assert forall|k: int| 0 <= k < split_by(rest, sep).len() implies free_of(
            #[trigger] split_by(rest, sep)[k],
            c,
        ) by {
            assert(split_by(rest, sep)[k] == pieces[k + 1]);
        }
        lemma_split_pieces_free(rest, sep, c);
        assert forall|i: int| 0 <= i < s.len() implies s[i] != c by {
            if i < sep.len() {
                assert(s[i] == s.take(sep.len() as int)[i]);
            } else {
                assert(s[i] == rest[i - sep.len()]);
            }
        }
    } else {
        let r = split_by(s.drop_first(), sep);
        let pieces = split_by(s, sep);
        lemma_split_nonempty(s.drop_first(), sep);
        assert(pieces[0] == seq![s[0]] + r[0]);
        assert(pieces[0][0] == s[0]);
        assert forall|k: int| 0 <= k < r.len() implies free_of(#[trigger] r[k], c) by {
            if k == 0 {
                assert forall|i: int| 0 <= i < r[0].len() implies r[0][i] != c by {
                    assert(r[0][i] == pieces[0][i + 1]);
                }
            } else {
                assert(r[k] == pieces[k]);
            }
        }
        lemma_split_pieces_free(s.drop_first(), sep, c);
        assert forall|i: int| 0 <= i < s.len() implies s[i] != c by {
            if i > 0 {
                assert(s[i] == s.drop_first()[i - 1]);
            }
        }
    }
}

} // verus!
