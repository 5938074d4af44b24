//! The MRU list engine: an ordered, duplicate-free list of file paths, its
//! serialized line-per-entry form, and the mutations driven by editor events.

use vstd::prelude::*;

use crate::util::push_char;

verus! {

broadcast use {
    vstd::seq_lib::lemma_seq_contains_after_push,
    vstd::seq_lib::lemma_seq_empty_contains_nothing,
    vstd::seq_lib::lemma_seq_concat_contains_all_elements,
};

/// A well-formed stored path: non-empty and free of line feeds, so that it
/// occupies exactly one line of the serialized form.
pub open spec fn wf_path(p: Seq<char>) -> bool {
    p.len() > 0 && !p.contains('\n')
}

/// Every element of the sequence is a well-formed stored path.
pub open spec fn all_wf(xs: Seq<Seq<char>>) -> bool {
    forall|i: int| 0 <= i < xs.len() ==> wf_path(#[trigger] xs[i])
}

/// No element of the sequence occurs twice.
pub open spec fn distinct_seq(xs: Seq<Seq<char>>) -> bool {
    forall|i: int, j: int| 0 <= i < j < xs.len() ==> xs[i] != xs[j]
}

/// The segments of a buffer split on line feeds. There is always at least
/// one segment; a trailing line feed contributes a final empty segment.
pub open spec fn split_segments(s: Seq<char>) -> Seq<Seq<char>>
    decreases s.len(),
{
    if s.len() == 0 {
        seq![Seq::empty()]
    } else {
        let rest = split_segments(s.drop_last());
        if s.last() == '\n' {
            rest.push(Seq::empty())
        } else {
            rest.update(rest.len() - 1, rest.last().push(s.last()))
        }
    }
}

/// The non-empty lines among a sequence of segments, in order.
pub open spec fn nonempty_lines(segs: Seq<Seq<char>>) -> Seq<Seq<char>>
    decreases segs.len(),
{
    if segs.len() == 0 {
        Seq::empty()
    } else {
        let rest = nonempty_lines(segs.drop_last());
        if segs.last().len() > 0 {
            rest.push(segs.last())
        } else {
            rest
        }
    }
}

/// Deduplication that keeps the first occurrence of each line.
pub open spec fn dedup_first(xs: Seq<Seq<char>>) -> Seq<Seq<char>>
    decreases xs.len(),
{
    if xs.len() == 0 {
        Seq::empty()
    } else {
        let rest = dedup_first(xs.drop_last());
        if xs.drop_last().contains(xs.last()) {
            rest
        } else {
            rest.push(xs.last())
        }
    }
}

/// What a loaded buffer denotes: its non-empty lines, first occurrence of
/// each kept.
pub open spec fn parse_spec(s: Seq<char>) -> Seq<Seq<char>> {
    dedup_first(nonempty_lines(split_segments(s)))
}

/// The serialized form of a list: each entry followed by a line feed; the
/// empty list serializes to the empty buffer.
pub open spec fn serialize_spec(lines: Seq<Seq<char>>) -> Seq<char>
    decreases lines.len(),
{
    if lines.len() == 0 {
        Seq::empty()
    } else {
        serialize_spec(lines.drop_last()) + lines.last() + seq!['\n']
    }
}

/// The list with every occurrence of `p` removed.
pub open spec fn remove_all(l: Seq<Seq<char>>, p: Seq<char>) -> Seq<Seq<char>>
    decreases l.len(),
{
    if l.len() == 0 {
        Seq::empty()
    } else {
        let rest = remove_all(l.drop_last(), p);
        if l.last() == p {
            rest
        } else {
            rest.push(l.last())
        }
    }
}

/// The list with every entry equal to either given form of a path removed.
pub open spec fn remove_both(l: Seq<Seq<char>>, p: Seq<char>, q: Seq<char>) -> Seq<Seq<char>>
    decreases l.len(),
{
    if l.len() == 0 {
        Seq::empty()
    } else {
        let rest = remove_both(l.drop_last(), p, q);
        if l.last() == p || l.last() == q {
            rest
        } else {
            rest.push(l.last())
        }
    }
}

/// A path moved to the front: it is prepended and removed from the rest.
pub open spec fn insert_front_spec(l: Seq<Seq<char>>, p: Seq<char>) -> Seq<Seq<char>> {
    seq![p] + remove_all(l, p)
}

/// Everything surviving `remove_all` was in the list and differs from the
/// removed path.
proof fn lemma_remove_all_sub(l: Seq<Seq<char>>, p: Seq<char>)
    ensures
        forall|y: Seq<char>| #[trigger] remove_all(l, p).contains(y) ==> l.contains(y) && y != p,
    decreases l.len(),
{
    if l.len() > 0 {
        lemma_remove_all_sub(l.drop_last(), p);
        assert(l.drop_last().push(l.last()) =~= l);
        let rest = remove_all(l.drop_last(), p);
        assert forall|y: Seq<char>| #[trigger] remove_all(l, p).contains(y) implies l.contains(y)
            && y != p by {
            if l.last() == p {
                assert(rest.contains(y));
                let i = choose|i: int| 0 <= i < l.drop_last().len() && l.drop_last()[i] == y;
                assert(l[i] == y);
            } else {
                assert(rest.push(l.last()).contains(y));
                if y == l.last() {
                    assert(l[l.len() - 1] == y);
                } else {
                    assert(rest.contains(y));
                    let i = choose|i: int| 0 <= i < l.drop_last().len() && l.drop_last()[i] == y;
                    assert(l[i] == y);
                }
            }
        }
    }
}

proof fn lemma_remove_all_distinct(l: Seq<Seq<char>>, p: Seq<char>)
    requires
        distinct_seq(l),
    ensures
        distinct_seq(remove_all(l, p)),
    decreases l.len(),
{
    if l.len() > 0 {
        assert(distinct_seq(l.drop_last())) by {
            assert(forall|i: int| 0 <= i < l.len() - 1 ==> l.drop_last()[i] == l[i]);
        }
        lemma_remove_all_distinct(l.drop_last(), p);
        lemma_remove_all_sub(l.drop_last(), p);
        let rest = remove_all(l.drop_last(), p);
        if l.last() != p {
            assert(!rest.contains(l.last())) by {
                if rest.contains(l.last()) {
                    assert(l.drop_last().contains(l.last()));
                    let i = choose|i: int|
                        0 <= i < l.drop_last().len() && l.drop_last()[i] == l.last();
                    assert(l[i] == l[l.len() - 1]);
                }
            }
            assert(distinct_seq(rest.push(l.last()))) by {
                assert(forall|i: int| 0 <= i < rest.len() ==> rest.push(l.last())[i] == rest[i]);
                assert(forall|i: int|
                    0 <= i < rest.len() && rest[i] == l.last() ==> rest.contains(l.last()));
            }
        }
    }
}

/// Removing an absent path leaves the list unchanged.
proof fn lemma_remove_all_absent(l: Seq<Seq<char>>, p: Seq<char>)
    requires
        !l.contains(p),
    ensures
        remove_all(l, p) == l,
    decreases l.len(),
{
    if l.len() > 0 {
        assert(l.drop_last().push(l.last()) =~= l);
        assert(!l.drop_last().contains(p));
        lemma_remove_all_absent(l.drop_last(), p);
        assert(l[l.len() - 1] != p);
        assert(remove_all(l, p) =~= l);
    }
}

proof fn lemma_remove_all_concat(a: Seq<Seq<char>>, b: Seq<Seq<char>>, p: Seq<char>)
    ensures
        remove_all(a + b, p) == remove_all(a, p) + remove_all(b, p),
    decreases b.len(),
{
    if b.len() == 0 {
        assert(a + b =~= a);
        assert(remove_all(a, p) + remove_all(b, p) =~= remove_all(a, p));
    } else {
        assert((a + b).drop_last() =~= a + b.drop_last());
        assert((a + b).last() == b.last());
        lemma_remove_all_concat(a, b.drop_last(), p);
    }
}

proof fn lemma_remove_all_idem(l: Seq<Seq<char>>, p: Seq<char>)
    ensures
        remove_all(remove_all(l, p), p) == remove_all(l, p),
    decreases l.len(),
{
    if l.len() > 0 {
        lemma_remove_all_idem(l.drop_last(), p);
        let rest = remove_all(l.drop_last(), p);
        if l.last() != p {
            assert(rest.push(l.last()).drop_last() =~= rest);
            assert(remove_all(rest.push(l.last()), p) =~= remove_all(rest, p).push(l.last()));
        }
    }
}

/// Promoting a path to the front is idempotent: doing it twice in a row
/// yields the same list as doing it once.
pub proof fn lemma_insert_front_idempotent(l: Seq<Seq<char>>, p: Seq<char>)
    ensures
        insert_front_spec(insert_front_spec(l, p), p) == insert_front_spec(l, p),
{
    lemma_remove_all_concat(seq![p], remove_all(l, p), p);
    assert(remove_all(seq![p], p) =~= Seq::<Seq<char>>::empty()) by {
        assert(seq![p].drop_last() =~= Seq::<Seq<char>>::empty());
        assert(remove_all(Seq::<Seq<char>>::empty(), p) =~= Seq::<Seq<char>>::empty());
        assert(seq![p].last() == p);
    }
    lemma_remove_all_idem(l, p);
    assert(Seq::<Seq<char>>::empty() + remove_all(l, p) =~= remove_all(l, p));
}

/// Inserting a path that is not yet in the list prepends it: the list grows
/// by one and the new path stands at the front.
pub proof fn lemma_insert_front_new_path(l: Seq<Seq<char>>, p: Seq<char>)
    requires
        !l.contains(p),
    ensures
        insert_front_spec(l, p).len() == l.len() + 1,
        insert_front_spec(l, p)[0] == p,
        insert_front_spec(l, p) == seq![p] + l,
{
    lemma_remove_all_absent(l, p);
}

/// Removing a path is idempotent: removing it twice is the same as once.
pub proof fn lemma_remove_idempotent(l: Seq<Seq<char>>, p: Seq<char>, q: Seq<char>)
    ensures
        remove_both(remove_both(l, p, q), p, q) == remove_both(l, p, q),
    decreases l.len(),
{
    if l.len() > 0 {
        lemma_remove_idempotent(l.drop_last(), p, q);
        let rest = remove_both(l.drop_last(), p, q);
        if !(l.last() == p || l.last() == q) {
            assert(rest.push(l.last()).drop_last() =~= rest);
            assert(remove_both(rest.push(l.last()), p, q) =~= remove_both(rest, p, q).push(
                l.last(),
            ));
        }
    }
}

proof fn lemma_remove_both_sub(l: Seq<Seq<char>>, p: Seq<char>, q: Seq<char>)
    ensures
        forall|y: Seq<char>| #[trigger]
            remove_both(l, p, q).contains(y) ==> l.contains(y) && y != p && y != q,
    decreases l.len(),
{
    if l.len() > 0 {
        lemma_remove_both_sub(l.drop_last(), p, q);
        assert(l.drop_last().push(l.last()) =~= l);
        let rest = remove_both(l.drop_last(), p, q);
        assert forall|y: Seq<char>| #[trigger] remove_both(l, p, q).contains(y) implies l.contains(
            y,
        ) && y != p && y != q by {
            if l.last() == p || l.last() == q {
                assert(rest.contains(y));
                let i = choose|i: int| 0 <= i < l.drop_last().len() && l.drop_last()[i] == y;
                assert(l[i] == y);
            } else {
                assert(rest.push(l.last()).contains(y));
                if y == l.last() {
                    assert(l[l.len() - 1] == y);
                } else {
                    assert(rest.contains(y));
                    let i = choose|i: int| 0 <= i < l.drop_last().len() && l.drop_last()[i] == y;
                    assert(l[i] == y);
                }
            }
        }
    }
}

proof fn lemma_remove_both_distinct(l: Seq<Seq<char>>, p: Seq<char>, q: Seq<char>)
    requires
        distinct_seq(l),
    ensures
        distinct_seq(remove_both(l, p, q)),
    decreases l.len(),
{
    if l.len() > 0 {
        assert(distinct_seq(l.drop_last())) by {
            assert(forall|i: int| 0 <= i < l.len() - 1 ==> l.drop_last()[i] == l[i]);
        }
        lemma_remove_both_distinct(l.drop_last(), p, q);
        lemma_remove_both_sub(l.drop_last(), p, q);
        let rest = remove_both(l.drop_last(), p, q);
        if !(l.last() == p || l.last() == q) {
            assert(!rest.contains(l.last())) by {
                if rest.contains(l.last()) {
                    assert(l.drop_last().contains(l.last()));
                    let i = choose|i: int|
                        0 <= i < l.drop_last().len() && l.drop_last()[i] == l.last();
                    assert(l[i] == l[l.len() - 1]);
                }
            }
            assert(distinct_seq(rest.push(l.last()))) by {
                assert(forall|i: int| 0 <= i < rest.len() ==> rest.push(l.last())[i] == rest[i]);
                assert(forall|i: int|
                    0 <= i < rest.len() && rest[i] == l.last() ==> rest.contains(l.last()));
            }
        }
    }
}

/// Splitting never produces a segment that holds a line feed.
proof fn lemma_split_no_newline(s: Seq<char>)
    ensures
        split_segments(s).len() >= 1,
        forall|i: int|
            0 <= i < split_segments(s).len() ==> !(#[trigger] split_segments(s)[i]).contains('\n'),
    decreases s.len(),
{
    if s.len() == 0 {
        assert(!Seq::<char>::empty().contains('\n'));
    } else {
        lemma_split_no_newline(s.drop_last());
        let rest = split_segments(s.drop_last());
        if s.last() == '\n' {
            assert(!Seq::<char>::empty().contains('\n'));
        } else {
            let ext = rest.last().push(s.last());
            assert(!ext.contains('\n')) by {
                if ext.contains('\n') {
                    assert(rest.contains(rest.last())) by {
                        assert(rest[rest.len() - 1] == rest.last());
                    }
                }
            }
        }
    }
}

/// Every non-empty line comes from some segment and is itself non-empty.
proof fn lemma_nonempty_lines_sub(segs: Seq<Seq<char>>)
    ensures
        forall|y: Seq<char>| #[trigger]
            nonempty_lines(segs).contains(y) ==> segs.contains(y) && y.len() > 0,
    decreases segs.len(),
{
    if segs.len() > 0 {
        lemma_nonempty_lines_sub(segs.drop_last());
        assert(segs.drop_last().push(segs.last()) =~= segs);
        let rest = nonempty_lines(segs.drop_last());
        assert forall|y: Seq<char>| #[trigger] nonempty_lines(segs).contains(y) implies
            segs.contains(y) && y.len() > 0 by {
            if segs.last().len() > 0 {
                assert(rest.push(segs.last()).contains(y));
            }
            if segs.last().len() > 0 && y == segs.last() {
                assert(segs[segs.len() - 1] == y);
            } else {
                assert(rest.contains(y));
                let i = choose|i: int|
                    0 <= i < segs.drop_last().len() && segs.drop_last()[i] == y;
                assert(segs[i] == y);
            }
        }
    }
}

/// Deduplication keeps exactly the members of its input.
pub(crate) proof fn lemma_dedup_first_membership(xs: Seq<Seq<char>>)
    ensures
        forall|y: Seq<char>| #[trigger] dedup_first(xs).contains(y) <==> xs.contains(y),
    decreases xs.len(),
{
    if xs.len() > 0 {
        lemma_dedup_first_membership(xs.drop_last());
        assert(xs.drop_last().push(xs.last()) =~= xs);
        let rest = dedup_first(xs.drop_last());
        assert forall|y: Seq<char>| #[trigger] dedup_first(xs).contains(y) implies xs.contains(
            y,
        ) by {
            if !xs.drop_last().contains(xs.last()) && y == xs.last() {
                assert(xs[xs.len() - 1] == y);
            } else {
                if !xs.drop_last().contains(xs.last()) {
                    assert(rest.push(xs.last()).contains(y));
                }
                assert(rest.contains(y));
                assert(xs.drop_last().contains(y));
                let i = choose|i: int| 0 <= i < xs.drop_last().len() && xs.drop_last()[i] == y;
                assert(xs[i] == y);
            }
        }
        assert forall|y: Seq<char>| xs.contains(y) implies #[trigger] dedup_first(xs).contains(
            y,
        ) by {
            let i = choose|i: int| 0 <= i < xs.len() && xs[i] == y;
            if i < xs.len() - 1 {
                assert(xs.drop_last()[i] == y);
                assert(xs.drop_last().contains(y));
                assert(rest.contains(y));
                if !xs.drop_last().contains(xs.last()) {
                    let k = choose|k: int| 0 <= k < rest.len() && rest[k] == y;
                    assert(rest.push(xs.last())[k] == y);
                }
            } else {
                // y is the last element
                if xs.drop_last().contains(xs.last()) {
                    assert(rest.contains(y));
                } else {
                    assert(rest.push(xs.last())[rest.len() as int] == y);
                }
            }
        }
    }
}

/// Deduplication leaves no element twice.
pub(crate) proof fn lemma_dedup_first_distinct(xs: Seq<Seq<char>>)
    ensures
        distinct_seq(dedup_first(xs)),
    decreases xs.len(),
{
    if xs.len() > 0 {
        lemma_dedup_first_distinct(xs.drop_last());
        lemma_dedup_first_membership(xs.drop_last());
        let rest = dedup_first(xs.drop_last());
        if !xs.drop_last().contains(xs.last()) {
            assert(!rest.contains(xs.last()));
            assert(distinct_seq(rest.push(xs.last()))) by {
                assert(forall|i: int| 0 <= i < rest.len() ==> rest.push(xs.last())[i] == rest[i]);
                assert(forall|i: int|
                    0 <= i < rest.len() && rest[i] == xs.last() ==> rest.contains(xs.last()));
            }
        }
    }
}

/// Deduplicating an already duplicate-free sequence changes nothing.
proof fn lemma_dedup_first_of_distinct(xs: Seq<Seq<char>>)
    requires
        distinct_seq(xs),
    ensures
        dedup_first(xs) == xs,
    decreases xs.len(),
{
    if xs.len() > 0 {
        assert(distinct_seq(xs.drop_last())) by {
            assert(forall|i: int| 0 <= i < xs.len() - 1 ==> xs.drop_last()[i] == xs[i]);
        }
        lemma_dedup_first_of_distinct(xs.drop_last());
        assert(!xs.drop_last().contains(xs.last())) by {
            if xs.drop_last().contains(xs.last()) {
                let i = choose|i: int|
                    0 <= i < xs.drop_last().len() && xs.drop_last()[i] == xs.last();
                assert(xs[i] == xs[xs.len() - 1]);
            }
        }
        assert(dedup_first(xs) =~= xs);
    }
}

/// Appending a line-feed-free string extends the last segment.
proof fn lemma_split_append_line(s: Seq<char>, l: Seq<char>)
    requires
        !l.contains('\n'),
    ensures
        split_segments(s + l) == split_segments(s).update(
            split_segments(s).len() - 1,
            split_segments(s).last() + l,
        ),
    decreases l.len(),
{
    lemma_split_no_newline(s);
    if l.len() == 0 {
        assert(s + l =~= s);
        assert(split_segments(s).last() + l =~= split_segments(s).last());
        assert(split_segments(s).update(
            split_segments(s).len() - 1,
            split_segments(s).last() + l,
        ) =~= split_segments(s));
    } else {
        assert(!l.drop_last().contains('\n')) by {
            if l.drop_last().contains('\n') {
                let i = choose|i: int| 0 <= i < l.drop_last().len() && l.drop_last()[i] == '\n';
                assert(l[i] == '\n');
            }
        }
        assert(l.last() != '\n') by {
            if l.last() == '\n' {
                assert(l[l.len() - 1] == '\n');
            }
        }
        lemma_split_append_line(s, l.drop_last());
        assert((s + l).drop_last() =~= s + l.drop_last());
        assert((s + l).last() == l.last());
        let base = split_segments(s);
        let n = base.len();
        let mid = base.update(n - 1, base.last() + l.drop_last());
        assert(split_segments(s + l) == mid.update(n - 1, mid.last().push(l.last())));
        assert(mid.last() == base.last() + l.drop_last());
        assert((base.last() + l.drop_last()).push(l.last()) =~= base.last() + l);
        assert(mid.update(n - 1, mid.last().push(l.last())) =~= base.update(n - 1, base.last() + l));
    }
}

/// A line feed at the end opens a new, empty segment.
proof fn lemma_split_append_newline(s: Seq<char>)
    ensures
        split_segments(s + seq!['\n']) == split_segments(s).push(Seq::empty()),
{
    assert((s + seq!['\n']).drop_last() =~= s);
    assert((s + seq!['\n']).last() == '\n');
}

/// The lines of a serialized well-formed list are exactly its entries, and
/// the buffer's last segment is empty.
proof fn lemma_lines_of_serialize(ll: Seq<Seq<char>>)
    requires
        all_wf(ll),
    ensures
        split_segments(serialize_spec(ll)).last() == Seq::<char>::empty(),
        nonempty_lines(split_segments(serialize_spec(ll))) == ll,
    decreases ll.len(),
{
    if ll.len() == 0 {
        assert(split_segments(serialize_spec(ll)) =~= seq![Seq::<char>::empty()]);
        assert(seq![Seq::<char>::empty()].drop_last() =~= Seq::<Seq<char>>::empty());
        assert(nonempty_lines(Seq::<Seq<char>>::empty()) =~= Seq::<Seq<char>>::empty());
        assert(nonempty_lines(seq![Seq::<char>::empty()]) =~= Seq::<Seq<char>>::empty());
    } else {
        let lp = ll.drop_last();
        let e = ll.last();
        assert(all_wf(lp)) by {
            assert(forall|i: int| 0 <= i < lp.len() ==> lp[i] == ll[i]);
        }
        assert(wf_path(e)) by {
            assert(ll[ll.len() - 1] == e);
        }
        lemma_lines_of_serialize(lp);
        let sp = serialize_spec(lp);
        let base = split_segments(sp);
        let n = base.len();
        lemma_split_no_newline(sp);
        lemma_split_append_line(sp, e);
        lemma_split_append_newline(sp + e);
        assert(serialize_spec(ll) == sp + e + seq!['\n']);
        assert((sp + e) + seq!['\n'] =~= sp + e + seq!['\n']);
        let mid = base.update(n - 1, base.last() + e);
        assert(base.last() + e =~= e);
        assert(split_segments(serialize_spec(ll)) == mid.push(Seq::<char>::empty()));
        assert(mid.push(Seq::<char>::empty()).last() == Seq::<char>::empty());
        // the non-empty lines of mid ++ [empty] are those of mid, which are
        // those of base.drop_last() plus the new entry
        assert(mid.push(Seq::<char>::empty()).drop_last() =~= mid);
        assert(mid =~= base.drop_last().push(e)) by {
            assert(mid.len() == n);
            assert(forall|i: int| 0 <= i < n - 1 ==> mid[i] == base[i]);
        }
        assert(nonempty_lines(mid.push(Seq::<char>::empty())) == nonempty_lines(mid));
        assert(base.drop_last().push(e).drop_last() =~= base.drop_last());
        assert(nonempty_lines(base.drop_last().push(e)) == nonempty_lines(base.drop_last()).push(
            e,
        ));
        assert(nonempty_lines(base) == nonempty_lines(base.drop_last())) by {
            assert(base.drop_last().push(base.last()) =~= base);
            assert(nonempty_lines(base.drop_last().push(base.last())) == nonempty_lines(
                base.drop_last(),
            ));
        }
        assert(lp.push(e) =~= ll);
    }
}

/// Serializing a well-formed, duplicate-free list and parsing the buffer
/// back yields the list unchanged.
pub proof fn lemma_parse_serialize(ll: Seq<Seq<char>>)
    requires
        all_wf(ll),
        distinct_seq(ll),
    ensures
        parse_spec(serialize_spec(ll)) == ll,
{
    lemma_lines_of_serialize(ll);
    lemma_dedup_first_of_distinct(ll);
}

/// Whatever buffer is parsed, the result is well formed: every entry is a
/// non-empty, line-feed-free path, and no entry repeats.
pub proof fn lemma_parse_wf(b: Seq<char>)
    ensures
        all_wf(parse_spec(b)),
        distinct_seq(parse_spec(b)),
{
    let segs = split_segments(b);
    let lines = nonempty_lines(segs);
    lemma_split_no_newline(b);
    lemma_nonempty_lines_sub(segs);
    lemma_dedup_first_membership(lines);
    lemma_dedup_first_distinct(lines);
    assert forall|i: int| 0 <= i < parse_spec(b).len() implies wf_path(
        #[trigger] parse_spec(b)[i],
    ) by {
        let y = parse_spec(b)[i];
        assert(parse_spec(b).contains(y));
        assert(lines.contains(y));
        assert(segs.contains(y) && y.len() > 0);
        let j = choose|j: int| 0 <= j < segs.len() && segs[j] == y;
        assert(!segs[j].contains('\n'));
    }
}

/// Round-trip stability: re-serializing and re-parsing a parsed buffer
/// yields what the first parse yielded.
pub proof fn lemma_round_trip(b: Seq<char>)
    ensures
        parse_spec(serialize_spec(parse_spec(b))) == parse_spec(b),
{
    lemma_parse_wf(b);
    lemma_parse_serialize(parse_spec(b));
}

/// Serializing the empty list yields the empty buffer, not a blank line.
pub proof fn lemma_serialize_empty()
    ensures
        serialize_spec(Seq::<Seq<char>>::empty()) == Seq::<char>::empty(),
{
}

/// The most-recently-used list: path strings, most recent first, no path
/// twice, none empty or holding a line feed.
pub struct MruList {
    entries: Vec<String>,
}

impl View for MruList {
    type V = Seq<Seq<char>>;

    closed spec fn view(&self) -> Seq<Seq<char>> {
        self.entries.deep_view()
    }
}

/// Whether a path may enter the list: non-empty and free of line feeds, so
/// it fits on one serialized line.
pub fn is_wf_path(s: &str) -> (r: bool)
    ensures
        r == wf_path(s@),
{
    let n: usize = s.unicode_len();
    if n == 0 {
        return false;
    }
    let mut i: usize = 0;
    while i < n
        invariant
            n == s@.len(),
            0 <= i <= n,
            forall|k: int| 0 <= k < i ==> s@[k] != '\n',
        decreases n - i,
    {
        if s.get_char(i) == '\n' {
            proof {
                assert(s@[i as int] == '\n');
            }
            return false;
        }
        i = i + 1;
    }
    proof {
        if s@.contains('\n') {
            let k = choose|k: int| 0 <= k < s@.len() && s@[k] == '\n';
        }
    }
    true
}

/// Pushing an element that is absent keeps a sequence duplicate free.
pub(crate) proof fn lemma_distinct_push(xs: Seq<Seq<char>>, y: Seq<char>)
    requires
        distinct_seq(xs),
        !xs.contains(y),
    ensures
        distinct_seq(xs.push(y)),
{
    assert forall|i: int, j: int| 0 <= i < j < xs.push(y).len() implies xs.push(y)[i] != xs.push(
        y,
    )[j] by {
        if j == xs.len() {
            if xs[i] == y {
                assert(xs.contains(y));
            }
        }
    }
}

/// True when a vector of strings holds one whose characters equal `x`'s.
pub(crate) fn contains_string(v: &Vec<String>, x: &String) -> (r: bool)
    ensures
        r == v.deep_view().contains(x@),
{
    let n = v.len();
    let mut j: usize = 0;
    while j < n
        invariant
            n == v.len(),
            0 <= j <= n,
            forall|k: int| 0 <= k < j ==> v.deep_view()[k] != x@,
        decreases n - j,
    {
        if v[j].eq(x) {
            proof {
                assert(v.deep_view()[j as int] == x@);
            }
            return true;
        }
        j = j + 1;
    }
    proof {
        if v.deep_view().contains(x@) {
            let k = choose|k: int| 0 <= k < v.deep_view().len() && v.deep_view()[k] == x@;
        }
    }
    false
}

/// The segments of a buffer, split on line feeds.
fn split_lines(s: &str) -> (r: Vec<String>)
    ensures
        r.deep_view() == split_segments(s@),
{
    let n: usize = s.unicode_len();
    let mut segs: Vec<String> = Vec::new();
    let mut cur = String::new();
    let mut i: usize = 0;
    while i < n
        invariant
            n == s@.len(),
            0 <= i <= n,
            segs.deep_view().push(cur@) == split_segments(s@.take(i as int)),
        decreases n - i,
    {
        let c = s.get_char(i);
        proof {
            assert(s@.take(i as int + 1).drop_last() =~= s@.take(i as int));
            assert(s@.take(i as int + 1).last() == s@[i as int]);
        }
        if c == '\n' {
            let ghost pre = segs.deep_view();
            let ghost curv = cur@;
            segs.push(cur);
            cur = String::new();
            proof {
                assert(segs.deep_view() =~= pre.push(curv));
                assert(split_segments(s@.take(i as int + 1)) == (pre.push(curv)).push(
                    Seq::<char>::empty(),
                ));
            }
        } else {
            let ghost pre = segs.deep_view();
            let ghost curv = cur@;
            push_char(&mut cur, c);
            proof {
                let whole = pre.push(curv);
                assert(whole.last() == curv);
                assert(split_segments(s@.take(i as int + 1)) == whole.update(
                    whole.len() - 1,
                    curv.push(s@[i as int]),
                ));
                assert(whole.update(whole.len() - 1, curv.push(s@[i as int])) =~= pre.push(cur@));
            }
        }
        i = i + 1;
    }
    let ghost pre = segs.deep_view();
    let ghost curv = cur@;
    segs.push(cur);
    proof {
        assert(segs.deep_view() =~= pre.push(curv));
        assert(s@.take(n as int) =~= s@);
    }
    segs
}

/// The non-empty lines among the given segments.
fn filter_nonempty(v: &Vec<String>) -> (r: Vec<String>)
    ensures
        r.deep_view() == nonempty_lines(v.deep_view()),
{
    let n = v.len();
    let mut out: Vec<String> = Vec::new();
    let mut i: usize = 0;
    while i < n
        invariant
            n == v.len(),
            0 <= i <= n,
            out.deep_view() == nonempty_lines(v.deep_view().take(i as int)),
        decreases n - i,
    {
        proof {
            assert(v.deep_view().take(i as int + 1).drop_last() =~= v.deep_view().take(i as int));
            assert(v.deep_view().take(i as int + 1).last() == v.deep_view()[i as int]);
        }
        if !v[i].as_str().is_empty() {
            let ghost pre = out.deep_view();
            out.push(v[i].clone());
            proof {
                assert(out.deep_view() =~= pre.push(v.deep_view()[i as int]));
            }
        }
        i = i + 1;
    }
    proof {
        assert(v.deep_view().take(n as int) =~= v.deep_view());
    }
    out
}

/// The given lines with every repetition of an earlier line dropped.
fn dedup_lines(v: &Vec<String>) -> (r: Vec<String>)
    ensures
        r.deep_view() == dedup_first(v.deep_view()),
{
    let n = v.len();
    let mut out: Vec<String> = Vec::new();
    let mut i: usize = 0;
    while i < n
        invariant
            n == v.len(),
            0 <= i <= n,
            out.deep_view() == dedup_first(v.deep_view().take(i as int)),
        decreases n - i,
    {
        proof {
            assert(v.deep_view().take(i as int + 1).drop_last() =~= v.deep_view().take(i as int));
            assert(v.deep_view().take(i as int + 1).last() == v.deep_view()[i as int]);
            lemma_dedup_first_membership(v.deep_view().take(i as int));
        }
        if !contains_string(&out, &v[i]) {
            let ghost pre = out.deep_view();
            out.push(v[i].clone());
            proof {
                assert(out.deep_view() =~= pre.push(v.deep_view()[i as int]));
            }
        }
        i = i + 1;
    }
    proof {
        assert(v.deep_view().take(n as int) =~= v.deep_view());
    }
    out
}

impl MruList {
    /// Every entry is a well-formed path and no entry repeats.
    pub open spec fn wf(&self) -> bool {
        all_wf(self@) && distinct_seq(self@)
    }

    /// The empty list.
    pub fn empty() -> (r: MruList)
        ensures
            r@ == Seq::<Seq<char>>::empty(),
            r.wf(),
    {
        let r = MruList { entries: Vec::new() };
        proof {
            assert(r@ =~= Seq::<Seq<char>>::empty());
        }
        r
    }

    /// Wrap entries already known to be well formed and duplicate free.
    pub(crate) fn from_entries(entries: Vec<String>) -> (r: MruList)
        requires
            all_wf(entries.deep_view()),
            distinct_seq(entries.deep_view()),
        ensures
            r@ == entries.deep_view(),
            r.wf(),
    {
        MruList { entries }
    }

    /// The stored entries, most recent first.
    pub fn entries(&self) -> (r: &Vec<String>)
        ensures
            r.deep_view() == self@,
    {
        &self.entries
    }

    /// How many paths the list holds.
    pub fn len(&self) -> (r: usize)
        ensures
            r == self@.len(),
    {
        self.entries.len()
    }

    /// Read a list back from its serialized buffer: its non-empty lines,
    /// keeping the first occurrence of a repeated line.
    pub fn deserialize(buf: &str) -> (r: MruList)
        ensures
            r@ == parse_spec(buf@),
            r.wf(),
    {
        let segs = split_lines(buf);
        let lines = filter_nonempty(&segs);
        let entries = dedup_lines(&lines);
        proof {
            lemma_parse_wf(buf@);
        }
        MruList { entries }
    }

    /// Write the list out: each entry followed by a line feed; the empty
    /// list becomes the empty buffer.
    pub fn serialize(&self) -> (r: String)
        ensures
            r@ == serialize_spec(self@),
    {
        let n = self.entries.len();
        let mut out = String::new();
        let mut i: usize = 0;
        while i < n
            invariant
                n == self.entries.len(),
                0 <= i <= n,
                out@ == serialize_spec(self@.take(i as int)),
            decreases n - i,
        {
            proof {
                assert(self@.take(i as int + 1).drop_last() =~= self@.take(i as int));
                assert(self@.take(i as int + 1).last() == self@[i as int]);
            }
            out.append(self.entries[i].as_str());
            push_char(&mut out, '\n');
            proof {
                assert(out@ =~= serialize_spec(self@.take(i as int)) + self@[i as int]
                    + seq!['\n']);
            }
            i = i + 1;
        }
        proof {
            assert(self@.take(n as int) =~= self@);
        }
        out
    }

    /// Record a file open: the path moves to the front and any other
    /// occurrence of it disappears.
    pub fn insert_front(&self, path: &str) -> (r: MruList)
        requires
            self.wf(),
            wf_path(path@),
        ensures
            r@ == insert_front_spec(self@, path@),
            r.wf(),
    {
        let p = path.to_owned();
        let mut out: Vec<String> = Vec::new();
        out.push(p.clone());
        proof {
            assert(out.deep_view() =~= seq![path@] + remove_all(self@.take(0), path@));
        }
        let n = self.entries.len();
        let mut i: usize = 0;
        while i < n
            invariant
                n == self.entries.len(),
                0 <= i <= n,
                p@ == path@,
                out.deep_view() == seq![path@] + remove_all(self@.take(i as int), path@),
            decreases n - i,
        {
            proof {
                assert(self@.take(i as int + 1).drop_last() =~= self@.take(i as int));
                assert(self@.take(i as int + 1).last() == self@[i as int]);
            }
            if !self.entries[i].eq(&p) {
                let ghost pre = out.deep_view();
                out.push(self.entries[i].clone());
                proof {
                    assert(out.deep_view() =~= pre.push(self@[i as int]));
                    assert(pre.push(self@[i as int]) =~= seq![path@] + remove_all(
                        self@.take(i as int),
                        path@,
                    ).push(self@[i as int]));
                }
            }
            i = i + 1;
        }
        proof {
            assert(self@.take(n as int) =~= self@);
            lemma_remove_all_sub(self@, path@);
            lemma_remove_all_distinct(self@, path@);
            let res = seq![path@] + remove_all(self@, path@);
            assert(all_wf(res)) by {
                assert forall|i: int| 0 <= i < res.len() implies wf_path(#[trigger] res[i]) by {
                    if i > 0 {
                        assert(remove_all(self@, path@)[i - 1] == res[i]);
                        assert(remove_all(self@, path@).contains(res[i]));
                        let j = choose|j: int| 0 <= j < self@.len() && self@[j] == res[i];
                    }
                }
            }
            assert(distinct_seq(res)) by {
                assert forall|i: int, j: int| 0 <= i < j < res.len() implies res[i] != res[j] by {
                    if i == 0 {
                        assert(remove_all(self@, path@)[j - 1] == res[j]);
                        assert(remove_all(self@, path@).contains(res[j]));
                    } else {
                        assert(remove_all(self@, path@)[i - 1] == res[i]);
                        assert(remove_all(self@, path@)[j - 1] == res[j]);
                    }
                }
            }
        }
        MruList { entries: out }
    }

    /// Record a removal request: every entry equal to the request, in
    /// either of its two forms, disappears; comparison is exact string
    /// equality.
    pub fn remove(&self, file: &str, file_abs: &str) -> (r: MruList)
        requires
            self.wf(),
        ensures
            r@ == remove_both(self@, file@, file_abs@),
            r.wf(),
    {
        let f = file.to_owned();
        let fa = file_abs.to_owned();
        let mut out: Vec<String> = Vec::new();
        proof {
            assert(out.deep_view() =~= remove_both(self@.take(0), file@, file_abs@));
        }
        let n = self.entries.len();
        let mut i: usize = 0;
        while i < n
            invariant
                n == self.entries.len(),
                0 <= i <= n,
                f@ == file@,
                fa@ == file_abs@,
                out.deep_view() == remove_both(self@.take(i as int), file@, file_abs@),
            decreases n - i,
        {
            proof {
                assert(self@.take(i as int + 1).drop_last() =~= self@.take(i as int));
                assert(self@.take(i as int + 1).last() == self@[i as int]);
            }
            if !self.entries[i].eq(&f) && !self.entries[i].eq(&fa) {
                let ghost pre = out.deep_view();
                out.push(self.entries[i].clone());
                proof {
                    assert(out.deep_view() =~= pre.push(self@[i as int]));
                }
            }
            i = i + 1;
        }
        proof {
            assert(self@.take(n as int) =~= self@);
            lemma_remove_both_sub(self@, file@, file_abs@);
            lemma_remove_both_distinct(self@, file@, file_abs@);
            let res = remove_both(self@, file@, file_abs@);
            assert(all_wf(res)) by {
                assert forall|i: int| 0 <= i < res.len() implies wf_path(#[trigger] res[i]) by {
                    assert(res.contains(res[i]));
                    let j = choose|j: int| 0 <= j < self@.len() && self@[j] == res[i];
                }
            }
        }
        MruList { entries: out }
    }
}

/// The serialized buffer after a file open: the opened path stands on the
/// first line and any other line equal to it is gone.
pub fn add_file_to_buffer(file_path: &str, buf: &str) -> (r: String)
    requires
        wf_path(file_path@),
    ensures
        r@ == serialize_spec(insert_front_spec(parse_spec(buf@), file_path@)),
{
    let list = MruList::deserialize(buf);
    let updated = list.insert_front(file_path);
    updated.serialize()
}

} // verus!
