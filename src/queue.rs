use vstd::prelude::*;

use crate::section::{
    sec, Split,
    ValueSection, sorted_disjoint, split, pieces, merge_into, lemma_split_sound, plus, value_at, opt_value_at,
    seq_value_at, lemma_plus_laws, lemma_seq_value_concat, lemma_seq_value_one, lemma_pieces_value,
};

verus! {

/// Every section of `s` starts at `lo` or later.
pub open spec fn starts_at_least(s: Seq<ValueSection>, lo: int) -> bool {
    forall|k: int| 0 <= k < s.len() ==> lo <= (#[trigger] s[k]).start
}

/// Three sorted runs joined where each ends before the next begins stay sorted.
proof fn lemma_join_sorted(a: Seq<ValueSection>, m: Seq<ValueSection>, b: Seq<ValueSection>, lo: int, hi: int)
    requires
        sorted_disjoint(a),
        sorted_disjoint(m),
        sorted_disjoint(b),
        m.len() > 0,
        forall|k: int| 0 <= k < a.len() ==> (#[trigger] a[k]).end <= lo,
        forall|k: int| 0 <= k < m.len() ==> lo <= (#[trigger] m[k]).start && m[k].end <= hi,
        forall|k: int| 0 <= k < b.len() ==> hi <= (#[trigger] b[k]).start,
    ensures
        sorted_disjoint(a + m + b),
{
    let s = a + m + b;
    assert forall|i: int, j: int| 0 <= i < j < s.len() implies (#[trigger] s[i]).end <= (#[trigger] s[j]).start by {
        if j < a.len() {
            assert(s[i] == a[i] && s[j] == a[j]);
        } else if j < a.len() + m.len() {
            assert(s[j] == m[j - a.len()]);
            if i >= a.len() {
                assert(s[i] == m[i - a.len()]);
            } else {
                assert(s[i] == a[i]);
            }
        } else {
            assert(s[j] == b[j - a.len() - m.len()]);
            if i >= a.len() + m.len() {
                assert(s[i] == b[i - a.len() - m.len()]);
            } else if i >= a.len() {
                assert(s[i] == m[i - a.len()]);
            } else {
                assert(s[i] == a[i]);
                assert(m[0].start < m[0].end);
            }
        }
    }
    assert forall|i: int| 0 <= i < s.len() implies (#[trigger] s[i]).wf() by {
        if i < a.len() {
            assert(s[i] == a[i]);
        } else if i < a.len() + m.len() {
            assert(s[i] == m[i - a.len()]);
        } else {
            assert(s[i] == b[i - a.len() - m.len()]);
        }
    }
}

/// Replacing `q` by `m` inside a queue, with `r` left over, keeps its value
/// when `m` and `r` together are worth `q` and `c`.
proof fn lemma_replace_value(
    before: Seq<ValueSection>,
    q: Seq<ValueSection>,
    m: Seq<ValueSection>,
    after: Seq<ValueSection>,
    r: i64,
    c: i64,
    p: int,
)
    requires
        plus(seq_value_at(m, p), r) == plus(seq_value_at(q, p), c),
    ensures
        plus(seq_value_at(before + m + after, p), r) == plus(seq_value_at(before + q + after, p), c),
{
    lemma_plus_laws();
    lemma_seq_value_concat(before, m, p);
    lemma_seq_value_concat(before + m, after, p);
    lemma_seq_value_concat(before, q, p);
    lemma_seq_value_concat(before + q, after, p);
    let b = seq_value_at(before, p);
    let a = seq_value_at(after, p);
    let mv = seq_value_at(m, p);
    let qv = seq_value_at(q, p);
    assert(plus(plus(plus(b, mv), a), r) == plus(plus(b, a), plus(mv, r)));
    assert(plus(plus(plus(b, qv), a), c) == plus(plus(b, a), plus(qv, c)));
}

/// The pieces of merging `cur` into `queued`, with a last piece that reached
/// past `queued` cut there and the rest left over, are worth what the two are.
proof fn lemma_pieces_after_trim(
    queued: ValueSection,
    cur: ValueSection,
    pr: Seq<ValueSection>,
    m: Seq<ValueSection>,
    rest: Option<ValueSection>,
)
    requires
        queued.wf(),
        cur.wf(),
        queued.start < cur.end && cur.start < queued.end,
        pr == pieces(split(queued, cur)),
        m == pr && rest == split(queued, cur).3 || {
            &&& split(queued, cur).3 is None
            &&& m.len() == pr.len()
            &&& m.drop_last() == pr.drop_last()
            &&& rest is Some
            &&& m.last() == ValueSection { start: pr.last().start, end: queued.end, value: pr.last().value }
            &&& rest.unwrap() == ValueSection { start: queued.end, end: pr.last().end, value: pr.last().value }
            &&& pr.last().start < queued.end < pr.last().end
        },
    ensures
        forall|p: int| #[trigger] plus(seq_value_at(m, p), opt_value_at(rest, p)) == plus(value_at(queued, p), value_at(cur, p)),
{
    lemma_split_sound(queued, cur);
    assert forall|p: int| #[trigger] plus(seq_value_at(m, p), opt_value_at(rest, p)) == plus(value_at(queued, p), value_at(cur, p)) by {
        lemma_plus_laws();
        lemma_pieces_value(split(queued, cur), p);
        if m != pr {
            let t = m.last();
            let o = rest.unwrap();
            let l = pr.last();
            assert(value_at(l, p) == plus(value_at(t, p), value_at(o, p)));
            assert(seq_value_at(m, p) == plus(seq_value_at(pr.drop_last(), p), value_at(t, p)));
            assert(plus(seq_value_at(m, p), value_at(o, p)) == plus(seq_value_at(pr.drop_last(), p), plus(value_at(t, p), value_at(o, p))));
        }
    }
}

proof fn lemma_push_value(q: Seq<ValueSection>, x: ValueSection)
    ensures
        forall|p: int| #[trigger] seq_value_at(q.push(x), p) == plus(seq_value_at(q, p), value_at(x, p)),
{
    assert forall|p: int| #[trigger] seq_value_at(q.push(x), p) == plus(seq_value_at(q, p), value_at(x, p)) by {
        assert(q.push(x) =~= q + seq![x]);
        lemma_seq_value_concat(q, seq![x], p);
        lemma_seq_value_one(x, p);
    }
}

proof fn lemma_insert_value(
    before: Seq<ValueSection>,
    queued: ValueSection,
    cur: ValueSection,
    after: Seq<ValueSection>,
    with_cur: Seq<ValueSection>,
    without: Seq<ValueSection>,
)
    requires
        with_cur == before + seq![cur, queued] + after,
        without == before + seq![queued] + after,
    ensures
        forall|p: int| #[trigger] seq_value_at(with_cur, p) == plus(seq_value_at(without, p), value_at(cur, p)),
{
    assert forall|p: int| #[trigger] seq_value_at(with_cur, p) == plus(seq_value_at(without, p), value_at(cur, p)) by {
        lemma_plus_laws();
        assert(seq![cur, queued] =~= seq![cur] + seq![queued]);
        lemma_seq_value_concat(seq![cur], seq![queued], p);
        lemma_seq_value_one(cur, p);
        lemma_seq_value_one(queued, p);
        assert(plus(seq_value_at(seq![cur, queued], p), 0) == plus(seq_value_at(seq![queued], p), value_at(cur, p)));
        lemma_replace_value(before, seq![queued], seq![cur, queued], after, 0, value_at(cur, p), p);
    }
}

/// The first index from `i` on whose section ends after `start`.
pub open spec fn first_open(q: Seq<ValueSection>, start: int, i: int) -> int
    decreases q.len() - i,
{
    if i >= q.len() || i < 0 {
        i
    } else if q[i].end > start {
        i
    } else {
        first_open(q, start, i + 1)
    }
}

/// The pieces of a split, with a last piece that reaches past `limit` cut
/// there, and what is left over to place again.
pub open spec fn trimmed(r: Split, limit: u32) -> (Seq<ValueSection>, Option<ValueSection>) {
    let pr = pieces(r);
    let last = pr.last();
    if last.end > limit {
        (pr.update(pr.len() - 1, sec(last.start, limit, last.value)), Some(sec(limit, last.end, last.value)))
    } else {
        (pr, r.3)
    }
}

/// The queue that placing `cur` into `q` gives: appended when it starts at
/// or after the end of the queue, inserted before the first section ending
/// after its start when it ends before that section, and otherwise merged
/// into that section with whatever reaches past it placed again.
pub open spec fn insert_spec(q: Seq<ValueSection>, cur: ValueSection) -> Seq<ValueSection>
    decreases cur.end - cur.start,
{
    if q.len() == 0 || q.last().end <= cur.start {
        q.push(cur)
    } else {
        let i = first_open(q, cur.start as int, 0);
        if i < 0 || i >= q.len() {
            q.push(cur)
        } else if cur.end <= q[i].start {
            q.insert(i, cur)
        } else {
            let t = trimmed(split(q[i], cur), q[i].end);
            let q2 = q.take(i) + t.0 + q.skip(i + 1);
            match t.1 {
                None => q2,
                Some(o) => if cur.start < o.start && o.start < o.end && o.end <= cur.end {
                    insert_spec(q2, o)
                } else {
                    q2
                },
            }
        }
    }
}

/// Places `nv` in a queue of sorted, disjoint sections.
///
/// Where `nv` overlaps a queued section the two are merged, and whatever of
/// `nv` reaches past that section is placed again, against the sections that
/// follow, until nothing is left over. The queue stays sorted and disjoint,
/// no section in it starts before both the old sections and `nv` did, and at
/// every position the queue is now worth what it was worth plus what `nv` is
/// worth there.
#[verifier::spinoff_prover]
pub fn insert_section(queue: &mut Vec<ValueSection>, nv: ValueSection)
    requires
        sorted_disjoint(old(queue)@),
        nv.wf(),
    ensures
        sorted_disjoint(final(queue)@),
        forall|lo: int|
            starts_at_least(old(queue)@, lo) && lo <= nv.start ==> #[trigger] starts_at_least(final(queue)@, lo),
        final(queue)@.len() > 0,
        forall|p: int| #[trigger] seq_value_at(final(queue)@, p) == plus(seq_value_at(old(queue)@, p), value_at(nv, p)),
        final(queue)@ == insert_spec(old(queue)@, nv),
{
    let mut cur = nv;
    loop
        invariant
            sorted_disjoint(queue@),
            cur.wf(),
            forall|lo: int|
                starts_at_least(old(queue)@, lo) && lo <= nv.start ==> starts_at_least(queue@, lo) && lo <= cur.start,
            forall|p: int| #[trigger] plus(seq_value_at(queue@, p), value_at(cur, p)) == plus(seq_value_at(old(queue)@, p), value_at(nv, p)),
            insert_spec(queue@, cur) == insert_spec(old(queue)@, nv),
        decreases cur.end - cur.start,
    {
        let n = queue.len();
        if n == 0 || queue[n - 1].end <= cur.start {
            proof {
                lemma_join_sorted(queue@, seq![cur], Seq::empty(), cur.start as int, cur.end as int);
                assert(queue@ + seq![cur] + Seq::empty() =~= queue@.push(cur));
                lemma_push_value(queue@, cur);
            }
            queue.push(cur);
            return;
        }
        let mut i: usize = 0;
        while queue[i].end <= cur.start
            invariant
                0 <= i < n == queue@.len(),
                queue@[n - 1].end > cur.start,
                forall|k: int| 0 <= k < i ==> (#[trigger] queue@[k]).end <= cur.start,
                first_open(queue@, cur.start as int, 0) == first_open(queue@, cur.start as int, i as int),
            decreases n - i,
        {
            i = i + 1;
        }
        let ghost q = queue@;
        assert(first_open(q, cur.start as int, 0) == i);
        let ghost before = q.take(i as int);
        let ghost after = q.skip(i as int + 1);
        let queued = queue[i];
        proof {
            assert forall|k: int| 0 <= k < before.len() implies (#[trigger] before[k]).end <= queued.start
                && before[k].end <= cur.start by {
                assert(before[k] == q[k]);
            }
            assert forall|k: int| 0 <= k < after.len() implies queued.end <= (#[trigger] after[k]).start by {
                assert(after[k] == q[k + i + 1]);
            }
            assert(sorted_disjoint(before)) by {
                assert forall|a: int, b: int| 0 <= a < b < before.len() implies (#[trigger] before[a]).end <= (#[trigger] before[b]).start by {
                    assert(before[a] == q[a] && before[b] == q[b]);
                }
                assert forall|a: int| 0 <= a < before.len() implies (#[trigger] before[a]).wf() by {
                    assert(before[a] == q[a]);
                }
            }
            assert(sorted_disjoint(after)) by {
                assert forall|a: int, b: int| 0 <= a < b < after.len() implies (#[trigger] after[a]).end <= (#[trigger] after[b]).start by {
                    assert(after[a] == q[a + i + 1] && after[b] == q[b + i + 1]);
                }
                assert forall|a: int| 0 <= a < after.len() implies (#[trigger] after[a]).wf() by {
                    assert(after[a] == q[a + i + 1]);
                }
            }
        }
        if cur.end <= queued.start {
            proof {
                lemma_join_sorted(before, seq![cur, queued], after, cur.start as int, queued.end as int);
                assert(before + seq![cur, queued] + after =~= q.insert(i as int, cur));
                assert(before + seq![queued] + after =~= q);
                lemma_insert_value(before, queued, cur, after, q.insert(i as int, cur), q);
                assert forall|lo: int| starts_at_least(q, lo) && lo <= cur.start implies starts_at_least(q.insert(i as int, cur), lo) by {
                    let s = q.insert(i as int, cur);
                    assert forall|k: int| 0 <= k < s.len() implies lo <= (#[trigger] s[k]).start by {
                        if k < i {
                            assert(s[k] == q[k]);
                        } else if k > i {
                            assert(s[k] == q[k - 1]);
                        }
                    }
                }
            }
            queue.insert(i, cur);
            return;
        }
        proof {
            lemma_split_sound(queued, cur);
        }
        let (first, second, third, overhang) = merge_into(queued, cur);
        let ghost r = (first, second, third, overhang);
        let mut pieces_v: Vec<ValueSection> = Vec::new();
        pieces_v.push(first);
        if let Some(s) = second {
            pieces_v.push(s);
        }
        if let Some(t) = third {
            pieces_v.push(t);
        }
        assert(pieces_v@ =~= pieces(r));
        let ghost pr = pieces_v@;
        let mut rest = overhang;
        let last_idx = pieces_v.len() - 1;
        let last = pieces_v[last_idx];
        if last.end > queued.end {
            // A zero-valued queued section was absorbed by a longer one: keep
            // the part that reaches past the queued section for the next pass.
            pieces_v.set(last_idx, ValueSection { start: last.start, end: queued.end, value: last.value });
            rest = Some(ValueSection { start: queued.end, end: last.end, value: last.value });
        }
        let ghost m = pieces_v@;
        assert((m, rest) == trimmed(split(queued, cur), queued.end));
        proof {
            if m != pr {
                assert(m.drop_last() =~= pr.drop_last());
            }
            lemma_pieces_after_trim(queued, cur, pr, m, rest);
        }
        let ghost lo = if queued.start <= cur.start { queued.start as int } else { cur.start as int };
        proof {
            assert(sorted_disjoint(m)) by {
                assert forall|a: int, b: int| 0 <= a < b < m.len() implies (#[trigger] m[a]).end <= (#[trigger] m[b]).start by {
                    assert(m[a].end <= pieces(r)[a].end);
                }
                assert forall|a: int| 0 <= a < m.len() implies (#[trigger] m[a]).wf() by {
                    assert(pieces(r)[a].wf());
                }
            }
            assert forall|k: int| 0 <= k < m.len() implies lo <= (#[trigger] m[k]).start && m[k].end <= queued.end by {
                if k > 0 {
                    assert(m[0].end <= m[k].start);
                }
                if k < m.len() - 1 {
                    assert(m[k].end <= m[m.len() - 1].start);
                }
            }
            lemma_join_sorted(before, m, after, lo, queued.end as int);
        }
        queue.set(i, pieces_v[0]);
        let mut j: usize = 1;
        while j < pieces_v.len()
            invariant
                1 <= j <= pieces_v@.len() <= 3,
                pieces_v@ == m,
                i < q.len(),
                before.len() == i,
                queue@ =~= before + m.take(j as int) + after,
            decreases pieces_v@.len() - j,
        {
            assert(m.take(j as int + 1) =~= m.take(j as int).push(m[j as int]));
            assert(before + m.take(j as int + 1) + after =~= (before + m.take(j as int) + after).insert(i + j, m[j as int]));
            let len = queue.len();
            assert(len == i + j + after.len());
            queue.insert(i + j, pieces_v[j]);
            j = j + 1;
        }
        assert(m.take(m.len() as int) =~= m);
        proof {
            assert forall|lo2: int| starts_at_least(old(queue)@, lo2) && lo2 <= nv.start implies starts_at_least(queue@, lo2) by {
                let s = queue@;
                assert(starts_at_least(q, lo2) && lo2 <= cur.start);
                assert(lo2 <= queued.start) by { assert(q[i as int] == queued); }
                assert forall|k: int| 0 <= k < s.len() implies lo2 <= (#[trigger] s[k]).start by {
                    if k < before.len() {
                        assert(s[k] == q[k]);
                    } else if k < before.len() + m.len() {
                        assert(s[k] == m[k - before.len()]);
                    } else {
                        assert(s[k] == q[k - m.len() + 1]);
                    }
                }
            }
        }
        proof {
            assert(before + seq![queued] + after =~= q);
            assert forall|p: int| #[trigger] plus(seq_value_at(queue@, p), opt_value_at(rest, p)) == plus(seq_value_at(q, p), value_at(cur, p)) by {
                lemma_plus_laws();
                lemma_seq_value_one(queued, p);
                lemma_replace_value(before, seq![queued], m, after, opt_value_at(rest, p), value_at(cur, p), p);
            }
        }
        match rest {
            None => {
                proof {
                    assert forall|p: int| #[trigger] seq_value_at(queue@, p) == plus(seq_value_at(old(queue)@, p), value_at(nv, p)) by {
                        lemma_plus_laws();
                        assert(plus(seq_value_at(queue@, p), opt_value_at(rest, p)) == plus(seq_value_at(q, p), value_at(cur, p)));
                        assert(plus(seq_value_at(q, p), value_at(cur, p)) == plus(seq_value_at(old(queue)@, p), value_at(nv, p)));
                    }
                }
                return;
            },
            Some(o) => {
                proof {
                    assert forall|p: int| #[trigger] plus(seq_value_at(queue@, p), value_at(o, p)) == plus(seq_value_at(old(queue)@, p), value_at(nv, p)) by {
                        assert(plus(seq_value_at(queue@, p), opt_value_at(rest, p)) == plus(seq_value_at(q, p), value_at(cur, p)));
                        assert(plus(seq_value_at(q, p), value_at(cur, p)) == plus(seq_value_at(old(queue)@, p), value_at(nv, p)));
                    }
                }
                cur = o;
            },
        }
    }
}

} // verus!
