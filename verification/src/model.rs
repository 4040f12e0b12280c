//! The mathematical model of line-oriented byte streams: how a byte stream
//! splits into lines, how lines are rendered back to bytes, the lexicographic
//! order on byte strings, and the delimiter-selected sort key of a line.

use vstd::prelude::*;

verus! {

/// Holds when `s` contains no newline byte (0x0A).
pub open spec fn no_newline(s: Seq<u8>) -> bool {
    forall|i: int| 0 <= i < s.len() ==> s[i] != 10u8
}

/// The lines of a byte stream: the segments between newline bytes.  A final
/// segment without a trailing newline still counts as a line; a trailing
/// newline does not open an empty final line.
pub open spec fn lines_of(s: Seq<u8>) -> Seq<Seq<u8>>
    decreases s.len(),
{
    if s.len() == 0 {
        Seq::empty()
    } else if s[0] == 10u8 {
        seq![Seq::<u8>::empty()] + lines_of(s.drop_first())
    } else {
        let rest = lines_of(s.drop_first());
        if rest.len() == 0 {
            seq![seq![s[0]]]
        } else {
            rest.update(0, seq![s[0]] + rest[0])
        }
    }
}

/// The byte stream that renders each line followed by one newline byte.
pub open spec fn unlines(ls: Seq<Seq<u8>>) -> Seq<u8>
    decreases ls.len(),
{
    if ls.len() == 0 {
        Seq::empty()
    } else {
        ls.first() + seq![10u8] + unlines(ls.drop_first())
    }
}

/// Lexicographic order on byte strings: `a` is less than or equal to `b`.
pub open spec fn lex_leq(a: Seq<u8>, b: Seq<u8>) -> bool
    decreases a.len(),
{
    if a.len() == 0 {
        true
    } else if b.len() == 0 {
        false
    } else if a[0] < b[0] {
        true
    } else if a[0] > b[0] {
        false
    } else {
        lex_leq(a.drop_first(), b.drop_first())
    }
}

/// The suffix of `l` after its first `d` byte; empty when `l` holds no `d`.
pub open spec fn after_delim(l: Seq<u8>, d: u8) -> Seq<u8>
    decreases l.len(),
{
    if l.len() == 0 {
        Seq::empty()
    } else if l[0] == d {
        l.drop_first()
    } else {
        after_delim(l.drop_first(), d)
    }
}

/// The prefix of `l` before its first `d` byte; all of `l` when `l` holds no `d`.
pub open spec fn until_delim(l: Seq<u8>, d: u8) -> Seq<u8>
    decreases l.len(),
{
    if l.len() == 0 {
        Seq::empty()
    } else if l[0] == d {
        Seq::empty()
    } else {
        seq![l[0]] + until_delim(l.drop_first(), d)
    }
}

/// The sort key of line `l` under delimiter `d` and field index `f`: the
/// whole line when `f` is 0, otherwise the bytes after the `f`-th `d` up to
/// but not including the next `d`.  A line with fewer than `f` delimiters
/// yields the empty key.
pub open spec fn key_of(l: Seq<u8>, d: u8, f: nat) -> Seq<u8>
    decreases f,
{
    if f == 0 {
        l
    } else if f == 1 {
        until_delim(after_delim(l, d), d)
    } else {
        key_of(after_delim(l, d), d, (f - 1) as nat)
    }
}

/// Order on whole lines: lexicographic comparison of their sort keys.
pub open spec fn line_leq(a: Seq<u8>, b: Seq<u8>, d: u8, f: nat) -> bool {
    lex_leq(key_of(a, d, f), key_of(b, d, f))
}

/// Holds when every adjacent pair of `ls` is in non-decreasing key order.
pub open spec fn sorted_lines(ls: Seq<Seq<u8>>, d: u8, f: nat) -> bool {
    forall|i: int, j: int| 0 <= i < j < ls.len() ==> line_leq(ls[i], ls[j], d, f)
}

/// Every byte stream of length at least one splits into at least one line.
pub proof fn lemma_lines_of_nonempty(s: Seq<u8>)
    requires
        s.len() > 0,
    ensures
        lines_of(s).len() >= 1,
    decreases s.len(),
{
    if s[0] != 10u8 && s.drop_first().len() > 0 {
        lemma_lines_of_nonempty(s.drop_first());
    }
}

/// Splitting a stream that starts with a terminated, newline-free segment
/// yields that segment as the first line, followed by the lines of the rest.
pub proof fn lemma_lines_of_prefix(p: Seq<u8>, t: Seq<u8>)
    requires
        no_newline(p),
    ensures
        lines_of(p + seq![10u8] + t) == seq![p] + lines_of(t),
    decreases p.len(),
{
    let s = p + seq![10u8] + t;
    if p.len() == 0 {
        assert(s =~= seq![10u8] + t);
        assert(s[0] == 10u8);
        assert(s.drop_first() =~= t);
        assert(p =~= Seq::<u8>::empty());
        assert(lines_of(s) == seq![Seq::<u8>::empty()] + lines_of(s.drop_first()));
        assert(lines_of(s) =~= seq![p] + lines_of(t));
    } else {
        assert(s[0] == p[0]);
        assert(s[0] != 10u8);
        assert(s.drop_first() =~= p.drop_first() + seq![10u8] + t);
        lemma_lines_of_prefix(p.drop_first(), t);
        let rest = lines_of(s.drop_first());
        assert(rest == seq![p.drop_first()] + lines_of(t));
        assert(rest.len() >= 1);
        assert(rest[0] == p.drop_first());
        assert(seq![s[0]] + rest[0] =~= p);
        assert(lines_of(s) =~= rest.update(0, p));
        assert(rest.update(0, p) =~= seq![p] + lines_of(t));
    }
}

/// A non-empty newline-free stream is one single unterminated line.
pub proof fn lemma_lines_of_unterminated(p: Seq<u8>)
    requires
        no_newline(p),
        p.len() > 0,
    ensures
        lines_of(p) == seq![p],
    decreases p.len(),
{
    if p.drop_first().len() > 0 {
        lemma_lines_of_unterminated(p.drop_first());
        let rest = lines_of(p.drop_first());
        assert(seq![p[0]] + rest[0] =~= p);
        assert(lines_of(p) =~= seq![p]);
    } else {
        assert(p.drop_first().len() == 0);
        assert(lines_of(p.drop_first()) == Seq::<Seq<u8>>::empty());
        assert(p[0] != 10u8);
        assert(lines_of(p) == seq![seq![p[0]]]);
        assert(seq![p[0]] =~= p);
        assert(lines_of(p) =~= seq![p]);
    }
}

/// Rendering distributes over appending one line at the end.
pub proof fn lemma_unlines_push(ls: Seq<Seq<u8>>, l: Seq<u8>)
    ensures
        unlines(ls.push(l)) == unlines(ls) + l + seq![10u8],
    decreases ls.len(),
{
    if ls.len() == 0 {
        assert(ls.push(l).drop_first() =~= Seq::<Seq<u8>>::empty());
        assert(ls.push(l).first() == l);
        assert(unlines(Seq::<Seq<u8>>::empty()) == Seq::<u8>::empty());
        assert(unlines(ls.push(l)) =~= l + seq![10u8]);
        assert(unlines(ls) + l + seq![10u8] =~= l + seq![10u8]);
    } else {
        assert(ls.push(l).drop_first() =~= ls.drop_first().push(l));
        lemma_unlines_push(ls.drop_first(), l);
        assert(unlines(ls.push(l)) =~= unlines(ls) + l + seq![10u8]);
    }
}

/// Splitting a rendered sequence of newline-free lines followed by any tail
/// recovers exactly those lines followed by the lines of the tail.
pub proof fn lemma_lines_of_unlines(ls: Seq<Seq<u8>>, t: Seq<u8>)
    requires
        forall|i: int| 0 <= i < ls.len() ==> no_newline(#[trigger] ls[i]),
    ensures
        lines_of(unlines(ls) + t) == ls + lines_of(t),
    decreases ls.len(),
{
    if ls.len() == 0 {
        assert(unlines(ls) + t =~= t);
        assert(ls + lines_of(t) =~= lines_of(t));
    } else {
        let p = ls.first();
        assert(unlines(ls) + t =~= p + seq![10u8] + (unlines(ls.drop_first()) + t));
        lemma_lines_of_prefix(p, unlines(ls.drop_first()) + t);
        lemma_lines_of_unlines(ls.drop_first(), t);
        assert(seq![p] + (ls.drop_first() + lines_of(t)) =~= ls + lines_of(t));
    }
}

/// Rendering then splitting a sequence of newline-free lines is the identity.
pub proof fn lemma_round_trip(ls: Seq<Seq<u8>>)
    requires
        forall|i: int| 0 <= i < ls.len() ==> no_newline(#[trigger] ls[i]),
    ensures
        lines_of(unlines(ls)) == ls,
{
    lemma_lines_of_unlines(ls, Seq::empty());
    assert(unlines(ls) + Seq::<u8>::empty() =~= unlines(ls));
    assert(ls + lines_of(Seq::<u8>::empty()) =~= ls);
}

/// The lexicographic order is total.
pub proof fn lemma_lex_total(a: Seq<u8>, b: Seq<u8>)
    ensures
        lex_leq(a, b) || lex_leq(b, a),
    decreases a.len(),
{
    if a.len() > 0 && b.len() > 0 && a[0] == b[0] {
        lemma_lex_total(a.drop_first(), b.drop_first());
    }
}

/// The lexicographic order is reflexive.
pub proof fn lemma_lex_refl(a: Seq<u8>)
    ensures
        lex_leq(a, a),
    decreases a.len(),
{
    if a.len() > 0 {
        lemma_lex_refl(a.drop_first());
    }
}

/// The lexicographic order is transitive.
pub proof fn lemma_lex_trans(a: Seq<u8>, b: Seq<u8>, c: Seq<u8>)
    requires
        lex_leq(a, b),
        lex_leq(b, c),
    ensures
        lex_leq(a, c),
    decreases a.len(),
{
    if a.len() > 0 && b.len() > 0 && c.len() > 0 && a[0] == b[0] && b[0] == c[0] {
        lemma_lex_trans(a.drop_first(), b.drop_first(), c.drop_first());
    }
}

/// Two byte strings below each other lexicographically are equal.
pub proof fn lemma_lex_antisym(a: Seq<u8>, b: Seq<u8>)
    requires
        lex_leq(a, b),
        lex_leq(b, a),
    ensures
        a == b,
    decreases a.len(),
{
    if a.len() > 0 && b.len() > 0 && a[0] == b[0] {
        lemma_lex_antisym(a.drop_first(), b.drop_first());
        assert(a =~= seq![a[0]] + a.drop_first());
        assert(b =~= seq![b[0]] + b.drop_first());
    }
}


/// Splitting after a stream that ends on a newline splits each part alone.
pub proof fn lemma_lines_of_terminated(x: Seq<u8>, t: Seq<u8>)
    requires
        x.len() > 0,
        x[x.len() - 1] == 10u8,
    ensures
        lines_of(x + t) == lines_of(x) + lines_of(t),
    decreases x.len(),
{
    if x.len() == 1 {
        assert(x[0] == 10u8);
        assert((x + t).drop_first() =~= t);
        assert(lines_of(x + t) == seq![Seq::<u8>::empty()] + lines_of(t));
        assert(x.drop_first() =~= Seq::<u8>::empty());
        assert(lines_of(x) =~= seq![Seq::<u8>::empty()]);
    } else if x[0] == 10u8 {
        assert((x + t).drop_first() =~= x.drop_first() + t);
        lemma_lines_of_terminated(x.drop_first(), t);
        assert(lines_of(x + t) =~= lines_of(x) + lines_of(t));
    } else {
        assert((x + t).drop_first() =~= x.drop_first() + t);
        lemma_lines_of_terminated(x.drop_first(), t);
        let rx = lines_of(x.drop_first());
        lemma_lines_of_nonempty(x.drop_first());
        assert(rx.len() >= 1);
        let rest = lines_of(x.drop_first() + t);
        assert(rest == rx + lines_of(t));
        assert(rest.len() >= 1);
        assert(rest[0] == rx[0]);
        assert(lines_of(x + t) == rest.update(0, seq![x[0]] + rest[0]));
        assert(lines_of(x) == rx.update(0, seq![x[0]] + rx[0]));
        assert((rx + lines_of(t)).update(0, seq![x[0]] + rx[0]) =~= rx.update(
            0,
            seq![x[0]] + rx[0],
        ) + lines_of(t));
    }
}

/// `after_delim` is the suffix after the first occurrence of the delimiter.
pub proof fn lemma_after_delim_at(l: Seq<u8>, d: u8, i: int)
    requires
        0 <= i < l.len(),
        l[i] == d,
        forall|j: int| 0 <= j < i ==> l[j] != d,
    ensures
        after_delim(l, d) == l.skip(i + 1),
    decreases i,
{
    if i == 0 {
        assert(after_delim(l, d) == l.drop_first());
        assert(l.drop_first() =~= l.skip(1));
    } else {
        assert(l[0] != d);
        lemma_after_delim_at(l.drop_first(), d, i - 1);
        assert(l.drop_first().skip(i) =~= l.skip(i + 1));
    }
}

/// Without the delimiter the suffix after it is empty.
pub proof fn lemma_after_delim_none(l: Seq<u8>, d: u8)
    requires
        forall|j: int| 0 <= j < l.len() ==> l[j] != d,
    ensures
        after_delim(l, d) == Seq::<u8>::empty(),
    decreases l.len(),
{
    if l.len() > 0 {
        lemma_after_delim_none(l.drop_first(), d);
    }
}

/// `until_delim` is the prefix before the first occurrence of the delimiter.
pub proof fn lemma_until_delim_at(l: Seq<u8>, d: u8, i: int)
    requires
        0 <= i < l.len(),
        l[i] == d,
        forall|j: int| 0 <= j < i ==> l[j] != d,
    ensures
        until_delim(l, d) == l.take(i),
    decreases i,
{
    if i == 0 {
        assert(until_delim(l, d) =~= l.take(0));
    } else {
        assert(l[0] != d);
        lemma_until_delim_at(l.drop_first(), d, i - 1);
        assert(seq![l[0]] + l.drop_first().take(i - 1) =~= l.take(i));
    }
}

/// Without the delimiter the prefix before it is the whole string.
pub proof fn lemma_until_delim_none(l: Seq<u8>, d: u8)
    requires
        forall|j: int| 0 <= j < l.len() ==> l[j] != d,
    ensures
        until_delim(l, d) == l,
    decreases l.len(),
{
    if l.len() > 0 {
        lemma_until_delim_none(l.drop_first(), d);
        assert(seq![l[0]] + l.drop_first() =~= l);
    }
}

/// The key of the empty line is empty for every positive field index.
pub proof fn lemma_key_of_empty(d: u8, f: nat)
    requires
        f >= 1,
    ensures
        key_of(Seq::<u8>::empty(), d, f) == Seq::<u8>::empty(),
    decreases f,
{
    assert(after_delim(Seq::<u8>::empty(), d) == Seq::<u8>::empty());
    if f == 1 {
        assert(until_delim(Seq::<u8>::empty(), d) == Seq::<u8>::empty());
    } else {
        lemma_key_of_empty(d, (f - 1) as nat);
    }
}

/// Mapping a function preserves multiset equality of sequences.
pub proof fn lemma_to_multiset_map<A, B>(s: Seq<A>, t: Seq<A>, f: spec_fn(A) -> B)
    requires
        s.to_multiset() == t.to_multiset(),
    ensures
        s.map_values(f).to_multiset() == t.map_values(f).to_multiset(),
    decreases s.len(),
{
    broadcast use vstd::seq_lib::group_to_multiset_ensures;

    if s.len() == 0 {
        assert(t.to_multiset().len() == 0);
        assert(t.len() == 0);
        assert(s.map_values(f) =~= t.map_values(f));
    } else {
        let x = s.last();
        assert(s =~= s.drop_last().push(x));
        assert(s.drop_last().push(x).to_multiset() == s.drop_last().to_multiset().insert(x));
        assert(s.to_multiset().count(x) > 0);
        assert(t.to_multiset().count(x) > 0);
        assert(t.contains(x));
        let idx = choose|idx: int| 0 <= idx < t.len() && t[idx] == x;
        let t2 = t.remove(idx);
        assert(t2.to_multiset() == t.to_multiset().remove(x));
        assert(s.drop_last().to_multiset() =~= t2.to_multiset());
        lemma_to_multiset_map(s.drop_last(), t2, f);
        assert(s.map_values(f) =~= s.drop_last().map_values(f).push(f(x)));
        assert(t.map_values(f).remove(idx) =~= t2.map_values(f));
        assert(t.map_values(f)[idx] == f(x));
        assert(t.map_values(f).remove(idx).to_multiset() == t.map_values(
            f,
        ).to_multiset().remove(f(x)));
        assert(s.drop_last().map_values(f).push(f(x)).to_multiset() == s.drop_last().map_values(
            f,
        ).to_multiset().insert(f(x)));
        assert(t.map_values(f).contains(f(x)));
        assert(t.map_values(f).to_multiset().count(f(x)) > 0);
        assert(t.map_values(f).to_multiset().remove(f(x)).insert(f(x)) =~= t.map_values(
            f,
        ).to_multiset());
    }
}


/// Every line that splitting produces is free of newline bytes.
pub proof fn lemma_lines_of_no_newline(s: Seq<u8>)
    ensures
        forall|i: int| 0 <= i < lines_of(s).len() ==> no_newline(#[trigger] lines_of(s)[i]),
    decreases s.len(),
{
    if s.len() == 0 {
    } else if s[0] == 10u8 {
        lemma_lines_of_no_newline(s.drop_first());
        assert forall|i: int| 0 <= i < lines_of(s).len() implies no_newline(
            #[trigger] lines_of(s)[i],
        ) by {
            if i == 0 {
                assert(lines_of(s)[0] =~= Seq::<u8>::empty());
            } else {
                assert(lines_of(s)[i] == lines_of(s.drop_first())[i - 1]);
            }
        }
    } else {
        lemma_lines_of_no_newline(s.drop_first());
        let rest = lines_of(s.drop_first());
        assert forall|i: int| 0 <= i < lines_of(s).len() implies no_newline(
            #[trigger] lines_of(s)[i],
        ) by {
            if rest.len() == 0 {
                assert(lines_of(s)[i] == seq![s[0]]);
                assert(no_newline(seq![s[0]]));
            } else {
                if i == 0 {
                    assert(lines_of(s)[0] == seq![s[0]] + rest[0]);
                    assert(no_newline(rest[0]));
                    assert(no_newline(seq![s[0]] + rest[0]));
                } else {
                    assert(lines_of(s)[i] == rest[i]);
                }
            }
        }
    }
}


/// Members of multiset-equal sequences occur in both.
pub proof fn lemma_to_multiset_contains<A>(s: Seq<A>, t: Seq<A>, x: A)
    requires
        s.to_multiset() == t.to_multiset(),
        s.contains(x),
    ensures
        t.contains(x),
{
    broadcast use vstd::seq_lib::group_to_multiset_ensures;

    assert(s.to_multiset().count(x) > 0);
}


/// Holds when some line of `ls` is at least `n` bytes long.
pub open spec fn some_line_at_least(ls: Seq<Seq<u8>>, n: int) -> bool {
    exists|i: int| 0 <= i < ls.len() && (#[trigger] ls[i]).len() >= n
}

/// Holds when some line of the stream is at least `n` bytes long, an
/// unterminated final segment counting as a line.
pub open spec fn has_long_line(s: Seq<u8>, n: int) -> bool {
    some_line_at_least(lines_of(s), n)
}

/// The first line of a non-empty stream is its longest newline-free prefix:
/// its bytes are the stream's first bytes, and it ends at the stream's end
/// or right before a newline byte.
pub proof fn lemma_first_line(s: Seq<u8>)
    requires
        s.len() > 0,
    ensures
        lines_of(s).len() > 0,
        lines_of(s)[0].len() <= s.len(),
        forall|j: int| 0 <= j < lines_of(s)[0].len() ==> s[j] == lines_of(s)[0][j],
        lines_of(s)[0].len() < s.len() ==> s[lines_of(s)[0].len() as int] == 10u8,
    decreases s.len(),
{
    lemma_lines_of_nonempty(s);
    if s[0] == 10u8 {
        assert(lines_of(s)[0] =~= Seq::<u8>::empty());
    } else {
        let rest = lines_of(s.drop_first());
        if rest.len() == 0 {
            assert(s.drop_first().len() == 0);
            assert(lines_of(s)[0] == seq![s[0]]);
        } else {
            lemma_first_line(s.drop_first());
            assert(lines_of(s)[0] == seq![s[0]] + rest[0]);
            assert forall|j: int| 0 <= j < lines_of(s)[0].len() implies s[j] == lines_of(
                s,
            )[0][j] by {
                if j > 0 {
                    assert(s.drop_first()[j - 1] == rest[0][j - 1]);
                }
            }
            if lines_of(s)[0].len() < s.len() {
                assert(s.drop_first()[rest[0].len() as int] == 10u8);
            }
        }
    }
}

/// A full window with no newline is exactly a first line that does not fit
/// the window.
pub proof fn lemma_head_line_blocks(s: Seq<u8>, n: int)
    requires
        n >= 1,
    ensures
        (s.len() >= n && no_newline(s.take(n))) <==> (lines_of(s).len() > 0 && lines_of(
            s,
        )[0].len() >= n),
{
    if s.len() > 0 {
        lemma_first_line(s);
        let f = lines_of(s)[0];
        if s.len() >= n && no_newline(s.take(n)) {
            if f.len() < n {
                assert(f.len() < s.len());
                assert(s[f.len() as int] == 10u8);
                assert(s.take(n)[f.len() as int] == 10u8);
                assert(false);
            }
        }
        if f.len() >= n {
            lemma_lines_of_no_newline(s);
            assert(no_newline(f));
            assert forall|j: int| 0 <= j < n implies s.take(n)[j] != 10u8 by {
                assert(s[j] == f[j]);
                assert(f[j] != 10u8);
            }
            assert(s.len() >= f.len());
        }
    } else {
        assert(lines_of(s).len() == 0);
    }
}

/// Whether some line reaches a length is a property of the line multiset.
pub proof fn lemma_some_line_at_least_multiset(x: Seq<Seq<u8>>, y: Seq<Seq<u8>>, n: int)
    requires
        x.to_multiset() == y.to_multiset(),
        some_line_at_least(x, n),
    ensures
        some_line_at_least(y, n),
{
    broadcast use vstd::seq_lib::group_to_multiset_ensures;

    let i = choose|i: int| 0 <= i < x.len() && (#[trigger] x[i]).len() >= n;
    assert(x.contains(x[i]));
    lemma_to_multiset_contains(x, y, x[i]);
    let j = choose|j: int| 0 <= j < y.len() && y[j] == x[i];
    assert(y[j].len() >= n);
}

} // verus!




