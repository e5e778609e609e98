use vstd::prelude::*;

use crate::queue::{insert_section, insert_spec, starts_at_least};
use crate::section::{
    ValueSection, sorted_disjoint, plus, value_at, seq_value_at, lemma_plus_laws, lemma_seq_value_concat, lemma_seq_value_one,
};

verus! {

/// How many sections the sources still hold past their cursors.
pub open spec fn left(secs: Seq<Vec<ValueSection>>, pos: Seq<usize>) -> int
    decreases secs.len(),
{
    if secs.len() == 0 {
        0
    } else {
        left(secs.drop_last(), pos.drop_last()) + (secs.last()@.len() - pos.last())
    }
}

/// Every section of the sources `j0..j1` past its cursor starts at `lo` or later.
pub open spec fn sources_start_at_least(secs: Seq<Vec<ValueSection>>, pos: Seq<usize>, j0: int, j1: int, lo: int) -> bool {
    forall|j: int, k: int| j0 <= j < j1 && pos[j] <= k < secs[j]@.len() ==> lo <= (#[trigger] secs[j]@[k]).start
}

proof fn lemma_left_step(secs: Seq<Vec<ValueSection>>, pos: Seq<usize>, j: int)
    requires
        secs.len() == pos.len(),
        0 <= j < secs.len(),
        pos[j] < secs[j]@.len(),
        pos[j] + 1 <= usize::MAX,
    ensures
        left(secs, pos.update(j, (pos[j] + 1) as usize)) == left(secs, pos) - 1,
    decreases secs.len(),
{
    let pos2 = pos.update(j, (pos[j] + 1) as usize);
    if j < secs.len() - 1 {
        assert(secs.drop_last()[j] == secs[j]);
        lemma_left_step(secs.drop_last(), pos.drop_last(), j);
        assert(pos2.drop_last() =~= pos.drop_last().update(j, (pos[j] + 1) as usize));
        assert(pos2.last() == pos.last());
    } else {
        assert(pos2.drop_last() =~= pos.drop_last());
    }
}

proof fn lemma_left_nonneg(secs: Seq<Vec<ValueSection>>, pos: Seq<usize>)
    requires
        secs.len() == pos.len(),
        forall|j: int| 0 <= j < secs.len() ==> pos[j] <= (#[trigger] secs[j])@.len(),
    ensures
        left(secs, pos) >= 0,
        left(secs, pos) == 0 <==> forall|j: int| 0 <= j < secs.len() ==> pos[j] == (#[trigger] secs[j])@.len(),
    decreases secs.len(),
{
    if secs.len() > 0 {
        let s2 = secs.drop_last();
        let p2 = pos.drop_last();
        assert forall|j: int| 0 <= j < s2.len() implies p2[j] <= (#[trigger] s2[j])@.len() by {
            assert(s2[j] == secs[j]);
        }
        lemma_left_nonneg(s2, p2);
        if forall|j: int| 0 <= j < secs.len() ==> pos[j] == (#[trigger] secs[j])@.len() {
            assert forall|j: int| 0 <= j < s2.len() implies p2[j] == (#[trigger] s2[j])@.len() by {
                assert(s2[j] == secs[j]);
            }
        }
        if left(secs, pos) == 0 {
            assert forall|j: int| 0 <= j < secs.len() implies pos[j] == (#[trigger] secs[j])@.len() by {
                if j < secs.len() - 1 {
                    assert(s2[j] == secs[j]);
                }
            }
        }
    }
}

/// What the sources add up to at position `p`.
pub open spec fn input_value(secs: Seq<Vec<ValueSection>>, p: int) -> i64
    decreases secs.len(),
{
    if secs.len() == 0 {
        0
    } else {
        plus(input_value(secs.drop_last(), p), seq_value_at(secs.last()@, p))
    }
}

/// What the sections past the cursors add up to at position `p`.
pub open spec fn pending_value(secs: Seq<Vec<ValueSection>>, pos: Seq<usize>, p: int) -> i64
    decreases secs.len(),
{
    if secs.len() == 0 {
        0
    } else {
        plus(pending_value(secs.drop_last(), pos.drop_last(), p), seq_value_at(secs.last()@.skip(pos.last() as int), p))
    }
}

proof fn lemma_rotate(a: i64, b: i64, c: i64)
    ensures
        plus(plus(a, b), c) == plus(plus(a, c), b),
        plus(a, plus(b, c)) == plus(plus(a, c), b),
{
    lemma_plus_laws();
}

proof fn lemma_pending_step(secs: Seq<Vec<ValueSection>>, pos: Seq<usize>, j: int, p: int)
    requires
        secs.len() == pos.len(),
        0 <= j < secs.len(),
        pos[j] < secs[j]@.len(),
        pos[j] + 1 <= usize::MAX,
    ensures
        pending_value(secs, pos, p) == plus(pending_value(secs, pos.update(j, (pos[j] + 1) as usize), p), value_at(secs[j]@[pos[j] as int], p)),
    decreases secs.len(),
{
    let pos2 = pos.update(j, (pos[j] + 1) as usize);
    if j < secs.len() - 1 {
        assert(secs.drop_last()[j] == secs[j]);
        lemma_pending_step(secs.drop_last(), pos.drop_last(), j, p);
        assert(pos2.drop_last() =~= pos.drop_last().update(j, (pos[j] + 1) as usize));
        assert(pos2.last() == pos.last());
        lemma_rotate(
            pending_value(secs.drop_last(), pos2.drop_last(), p),
            value_at(secs[j]@[pos[j] as int], p),
            seq_value_at(secs.last()@.skip(pos.last() as int), p),
        );
    } else {
        assert(pos2.drop_last() =~= pos.drop_last());
        let s = secs[j]@;
        let k = pos[j] as int;
        assert(s.skip(k) =~= seq![s[k]] + s.skip(k + 1));
        lemma_seq_value_concat(seq![s[k]], s.skip(k + 1), p);
        lemma_seq_value_one(s[k], p);
        lemma_rotate(pending_value(secs.drop_last(), pos.drop_last(), p), value_at(s[k], p), seq_value_at(s.skip(k + 1), p));
    }
}

proof fn lemma_pending_done(secs: Seq<Vec<ValueSection>>, pos: Seq<usize>, p: int)
    requires
        secs.len() == pos.len(),
        forall|j: int| 0 <= j < secs.len() ==> pos[j] == (#[trigger] secs[j])@.len(),
    ensures
        pending_value(secs, pos, p) == 0,
    decreases secs.len(),
{
    lemma_plus_laws();
    if secs.len() > 0 {
        let s2 = secs.drop_last();
        let p2 = pos.drop_last();
        assert forall|j: int| 0 <= j < s2.len() implies p2[j] == (#[trigger] s2[j])@.len() by {
            assert(s2[j] == secs[j]);
        }
        lemma_pending_done(s2, p2, p);
        assert(secs.last()@.skip(pos.last() as int) =~= Seq::<ValueSection>::empty());
    }
}

proof fn lemma_pending_start(secs: Seq<Vec<ValueSection>>, pos: Seq<usize>, p: int)
    requires
        secs.len() == pos.len(),
        forall|j: int| 0 <= j < secs.len() ==> pos[j] == 0,
    ensures
        pending_value(secs, pos, p) == input_value(secs, p),
    decreases secs.len(),
{
    if secs.len() > 0 {
        lemma_pending_start(secs.drop_last(), pos.drop_last(), p);
        assert(secs.last()@.skip(0) =~= secs.last()@);
    }
}

/// What handed-out, buffered, queued and pending sections add up to.
pub open spec fn books(e: Seq<ValueSection>, b: Seq<ValueSection>, q: Seq<ValueSection>, pending: i64, p: int) -> i64 {
    plus(plus(seq_value_at(e, p), seq_value_at(b, p)), plus(seq_value_at(q, p), pending))
}

proof fn lemma_value_front(s: Seq<ValueSection>, p: int)
    requires
        s.len() > 0,
    ensures
        seq_value_at(s, p) == plus(value_at(s[0], p), seq_value_at(s.skip(1), p)),
{
    assert(s =~= seq![s[0]] + s.skip(1));
    lemma_seq_value_concat(seq![s[0]], s.skip(1), p);
    lemma_seq_value_one(s[0], p);
}

proof fn lemma_value_push(s: Seq<ValueSection>, x: ValueSection, p: int)
    ensures
        seq_value_at(s.push(x), p) == plus(seq_value_at(s, p), value_at(x, p)),
{
    assert(s.push(x) =~= s + seq![x]);
    lemma_seq_value_concat(s, seq![x], p);
    lemma_seq_value_one(x, p);
}

proof fn lemma_books_hand_out(e: Seq<ValueSection>, b: Seq<ValueSection>, q: Seq<ValueSection>, pd: i64, p: int)
    requires
        b.len() > 0,
    ensures
        books(e.push(b[0]), b.skip(1), q, pd, p) == books(e, b, q, pd, p),
{
    lemma_value_front(b, p);
    lemma_value_push(e, b[0], p);
    lemma_plus_laws();
}

proof fn lemma_books_to_buffer(e: Seq<ValueSection>, b: Seq<ValueSection>, q: Seq<ValueSection>, pd: i64, p: int)
    requires
        q.len() > 0,
    ensures
        books(e, b.push(q[0]), q.skip(1), pd, p) == books(e, b, q, pd, p),
{
    lemma_value_front(q, p);
    lemma_value_push(b, q[0], p);
    let ev = seq_value_at(e, p);
    let bv = seq_value_at(b, p);
    let f = value_at(q[0], p);
    let rv = seq_value_at(q.skip(1), p);
    lemma_plus_laws();
    assert(plus(plus(ev, plus(bv, f)), plus(rv, pd)) == plus(plus(ev, bv), plus(plus(f, rv), pd)));
}

proof fn lemma_books_swap(e: Seq<ValueSection>, q: Seq<ValueSection>, pd: i64, p: int)
    ensures
        books(e, q, Seq::empty(), pd, p) == books(e, Seq::empty(), q, pd, p),
{
    let em = Seq::<ValueSection>::empty();
    assert(seq_value_at(em, p) == 0);
    lemma_plus_laws();
}

proof fn lemma_books_pull(e: Seq<ValueSection>, b: Seq<ValueSection>, q: Seq<ValueSection>, q2: Seq<ValueSection>, pd: i64, pd2: i64, x: i64, p: int)
    requires
        pd == plus(pd2, x),
        seq_value_at(q2, p) == plus(seq_value_at(q, p), x),
    ensures
        books(e, b, q2, pd2, p) == books(e, b, q, pd, p),
{
    let qv = seq_value_at(q, p);
    lemma_plus_laws();
    assert(plus(plus(qv, x), pd2) == plus(qv, plus(pd2, x)));
}

/// Handed-out, buffered, queued and pending sections together are worth, at
/// every position, what the sources are worth there.
pub open spec fn balanced(
    e: Seq<ValueSection>,
    b: Seq<ValueSection>,
    q: Seq<ValueSection>,
    secs: Seq<Vec<ValueSection>>,
    pos: Seq<usize>,
) -> bool {
    forall|p: int| #[trigger] books(e, b, q, pending_value(secs, pos, p), p) == input_value(secs, p)
}

/// The smaller of a start seen so far, if any, and `s`.
pub open spec fn min_start(es: Option<u32>, s: u32) -> u32 {
    match es {
        None => s,
        Some(e) => if e < s { e } else { s },
    }
}

/// One round from source `j` on: each source with a section left hands its
/// next one to the queue. Gives the new cursors, the new queue and the
/// smallest start pulled.
pub open spec fn pull_round(secs: Seq<Vec<ValueSection>>, pos: Seq<usize>, q: Seq<ValueSection>, j: int, es: Option<u32>) -> (
    Seq<usize>,
    Seq<ValueSection>,
    Option<u32>,
)
    decreases secs.len() - j,
{
    if j < 0 || j >= secs.len() {
        (pos, q, es)
    } else if pos[j] < secs[j]@.len() {
        let x = secs[j]@[pos[j] as int];
        pull_round(secs, pos.update(j, (pos[j] + 1) as usize), insert_spec(q, x), j + 1, Some(min_start(es, x.start)))
    } else {
        pull_round(secs, pos, q, j + 1, es)
    }
}

/// The leading sections of `q` that end at or before `e`, and the rest.
pub open spec fn drain(q: Seq<ValueSection>, e: u32) -> (Seq<ValueSection>, Seq<ValueSection>)
    decreases q.len(),
{
    if q.len() > 0 && q[0].end <= e {
        let d = drain(q.skip(1), e);
        (seq![q[0]] + d.0, d.1)
    } else {
        (Seq::empty(), q)
    }
}

/// What the rounds from cursors `pos` and queue `q` on hand out: after each
/// round that pulled something, the queued sections that end by the smallest
/// start pulled; after the first round that pulls nothing, the whole queue.
pub open spec fn rounds(secs: Seq<Vec<ValueSection>>, pos: Seq<usize>, q: Seq<ValueSection>) -> Seq<ValueSection>
    decreases left(secs, pos),
{
    let r = pull_round(secs, pos, q, 0, None);
    match r.2 {
        None => r.1,
        Some(e) => {
            let d = drain(r.1, e);
            if 0 <= left(secs, r.0) < left(secs, pos) {
                d.0 + rounds(secs, r.0, d.1)
            } else {
                d.0
            }
        },
    }
}

/// The merge of `secs`: what the rounds hand out from the start.
pub open spec fn merged(secs: Seq<Vec<ValueSection>>) -> Seq<ValueSection> {
    rounds(secs, Seq::new(secs.len(), |j: int| 0usize), Seq::empty())
}

proof fn lemma_pull_exhausted(secs: Seq<Vec<ValueSection>>, pos: Seq<usize>, q: Seq<ValueSection>, j: int, es: Option<u32>)
    requires
        secs.len() == pos.len(),
        0 <= j,
        forall|i: int| 0 <= i < secs.len() ==> pos[i] == (#[trigger] secs[i])@.len(),
    ensures
        pull_round(secs, pos, q, j, es) == (pos, q, es),
    decreases secs.len() - j,
{
    if j < secs.len() {
        lemma_pull_exhausted(secs, pos, q, j + 1, es);
    }
}

/// Merges any number of sorted, disjoint section streams into one, section
/// by section.
pub struct ValueSectionIter {
    sections: Vec<Vec<ValueSection>>,
    positions: Vec<usize>,
    queue: Vec<ValueSection>,
    buffer: Vec<ValueSection>,
    /// The end of the last section handed out.
    last_end: Ghost<int>,
    /// The end of the last section moved to the buffer.
    buffer_end: Ghost<int>,
    /// The sections handed out so far.
    emitted: Ghost<Seq<ValueSection>>,
}

impl ValueSectionIter {
    /// The end of the last section handed out so far.
    pub closed spec fn emitted_end(&self) -> int {
        self.last_end@
    }

    /// The sections handed out so far, in order.
    pub closed spec fn emitted(&self) -> Seq<ValueSection> {
        self.emitted@
    }

    /// The sources being merged.
    pub closed spec fn sources(&self) -> Seq<Vec<ValueSection>> {
        self.sections@
    }

    /// How much work is left: sections still in the sources, and sections
    /// waiting in the queue and the buffer.
    pub closed spec fn work(&self) -> (int, int) {
        (left(self.sections@, self.positions@), (self.queue@.len() + self.buffer@.len()) as int)
    }

    /// The iterator's invariant: sources, queue and buffer are sorted and
    /// disjoint; nothing pending starts before what was already moved on; and
    /// all of it together is worth what the sources are worth.
    pub closed spec fn wf(&self) -> bool {
        &&& self.positions@.len() == self.sections@.len()
        &&& forall|j: int| 0 <= j < self.sections@.len() ==> self.positions@[j] <= (#[trigger] self.sections@[j])@.len()
        &&& forall|j: int| 0 <= j < self.sections@.len() ==> sorted_disjoint((#[trigger] self.sections@[j])@)
        &&& sorted_disjoint(self.queue@)
        &&& sorted_disjoint(self.buffer@)
        &&& starts_at_least(self.buffer@, self.last_end@)
        &&& self.last_end@ <= self.buffer_end@
        &&& forall|k: int| 0 <= k < self.buffer@.len() ==> (#[trigger] self.buffer@[k]).end <= self.buffer_end@
        &&& starts_at_least(self.queue@, self.buffer_end@)
        &&& sources_start_at_least(self.sections@, self.positions@, 0, self.sections@.len() as int, self.buffer_end@)
        &&& balanced(self.emitted@, self.buffer@, self.queue@, self.sections@, self.positions@)
        &&& self.emitted@ + self.buffer@ + rounds(self.sections@, self.positions@, self.queue@) == merged(self.sections@)
    }

    proof fn lemma_emitted_prefix(&self)
        requires
            self.wf(),
        ensures
            self.emitted().len() <= merged(self.sources()).len(),
            self.emitted() == merged(self.sources()).take(self.emitted().len() as int),
    {
        let e = self.emitted@;
        let rest = self.buffer@ + rounds(self.sections@, self.positions@, self.queue@);
        assert(e + self.buffer@ + rounds(self.sections@, self.positions@, self.queue@) =~= e + rest);
        assert((e + rest).take(e.len() as int) =~= e);
    }

    /// Hands out the next merged section, or `None` once every source and
    /// every pending section is used up.
    ///
    /// Sections come out in order: each starts at or after the end of the
    /// one handed out before it. Once `None` comes, the sections handed out
    /// are worth, at every position, what the sources are worth there.
    pub fn next(&mut self) -> (r: Option<ValueSection>)
        requires
            old(self).wf(),
        ensures
            final(self).wf(),
            r is Some ==> {
                let s = r.unwrap();
                &&& s.wf()
                &&& old(self).emitted_end() <= s.start
                &&& final(self).emitted_end() == s.end
                &&& final(self).work().0 < old(self).work().0
                    || (final(self).work().0 == old(self).work().0 && final(self).work().1 < old(self).work().1)
            },
            r is None ==> final(self).work() == (0int, 0int) && final(self).emitted_end() == old(self).emitted_end(),
            final(self).work().0 <= old(self).work().0,
            final(self).work().0 >= 0,
            final(self).sources() == old(self).sources(),
            r is Some ==> final(self).emitted() == old(self).emitted().push(r.unwrap()),
            r is None ==> final(self).emitted() == old(self).emitted(),
            r is None ==> forall|p: int| #[trigger] seq_value_at(final(self).emitted(), p) == input_value(final(self).sources(), p),
            final(self).work().1 >= 0,
            final(self).emitted().len() <= merged(final(self).sources()).len(),
            final(self).emitted() == merged(final(self).sources()).take(final(self).emitted().len() as int),
            r is None ==> final(self).emitted() == merged(final(self).sources()),
            r is Some <==> old(self).emitted().len() < merged(old(self).sources()).len(),
    {
        proof {
            old(self).lemma_emitted_prefix();
        }
        proof {
            lemma_left_nonneg(self.sections@, self.positions@);
        }
        if self.buffer.len() > 0 {
            proof {
                let b = self.buffer@;
                assert(b[0].wf());
                assert forall|a: int, c: int| 0 <= a < c < b.len() - 1 implies (#[trigger] b.skip(1)[a]).end <= (#[trigger] b.skip(1)[c]).start by {
                    assert(b.skip(1)[a] == b[a + 1] && b.skip(1)[c] == b[c + 1]);
                }
                assert forall|a: int| 0 <= a < b.len() - 1 implies (#[trigger] b.skip(1)[a]).wf() && b[0].end <= b.skip(1)[a].start && b.skip(1)[a].end <= self.buffer_end@ by {
                    assert(b.skip(1)[a] == b[a + 1]);
                }
            }
            let ghost e0 = self.emitted@;
            let ghost b0 = self.buffer@;
            let r = self.buffer.remove(0);
            self.last_end = Ghost(r.end as int);
            self.emitted = Ghost(e0.push(r));
            assert(self.buffer@ =~= old(self).buffer@.skip(1));
            assert(self.emitted@ + self.buffer@ + rounds(self.sections@, self.positions@, self.queue@)
                =~= e0 + b0 + rounds(self.sections@, self.positions@, self.queue@));
            proof {
                assert forall|p: int| #[trigger] books(self.emitted@, self.buffer@, self.queue@, pending_value(self.sections@, self.positions@, p), p)
                    == input_value(self.sections@, p) by {
                    lemma_books_hand_out(e0, b0, self.queue@, pending_value(self.sections@, self.positions@, p), p);
                }
                self.lemma_emitted_prefix();
            }
            return Some(r);
        }
        let ghost left0 = left(self.sections@, self.positions@);
        loop
            invariant_except_break
                self.buffer@.len() == 0,
            invariant
                self.wf(),
                self.sections@ == old(self).sections@,
                self.last_end@ == old(self).last_end@,
                self.emitted@ == old(self).emitted@,
                left(self.sections@, self.positions@) <= left0,
                left0 == old(self).work().0,
                left(self.sections@, self.positions@) == left0 ==> self.queue@.len() + self.buffer@.len() <= old(self).queue@.len(),
            ensures
                self.buffer@.len() == 0 ==> self.queue@.len() == 0 && left(self.sections@, self.positions@) == 0,
            decreases left(self.sections@, self.positions@),
        {
            proof {
                lemma_left_nonneg(self.sections@, self.positions@);
            }
            let ghost left_round = left(self.sections@, self.positions@);
            let ghost pos_r = self.positions@;
            let ghost q_r = self.queue@;
            assert(self.emitted@ + rounds(self.sections@, pos_r, q_r) == merged(self.sections@)) by {
                assert(self.emitted@ + self.buffer@ =~= self.emitted@);
            }
            let ghost bound = self.buffer_end@;
            let mut earliest: Option<u32> = None;
            let n = self.sections.len();
            let mut j: usize = 0;
            while j < n
                invariant
                    n == self.sections@.len() == self.positions@.len(),
                    0 <= j <= n,
                    self.sections@ == old(self).sections@,
                    forall|i: int| 0 <= i < n ==> self.positions@[i] <= (#[trigger] self.sections@[i])@.len(),
                    forall|i: int| 0 <= i < n ==> sorted_disjoint((#[trigger] self.sections@[i])@),
                    sorted_disjoint(self.queue@),
                    starts_at_least(self.queue@, bound),
                    self.buffer@.len() == 0,
                    self.buffer_end@ == bound,
                    self.last_end@ == old(self).last_end@,
                    self.emitted@ == old(self).emitted@,
                    balanced(self.emitted@, self.buffer@, self.queue@, self.sections@, self.positions@),
                    self.last_end@ <= bound,
                    sources_start_at_least(self.sections@, self.positions@, j as int, n as int, bound),
                    earliest is Some ==> bound <= earliest.unwrap()
                        && sources_start_at_least(self.sections@, self.positions@, 0, j as int, earliest.unwrap() as int)
                        && left(self.sections@, self.positions@) < left_round,
                    earliest is None ==> left(self.sections@, self.positions@) == left_round
                        && forall|i: int| 0 <= i < j ==> self.positions@[i] == (#[trigger] self.sections@[i])@.len(),
                    left_round <= left0,
                    left_round == left0 && earliest is None ==> self.queue@.len() <= old(self).queue@.len(),
                    pull_round(self.sections@, self.positions@, self.queue@, j as int, earliest) == pull_round(self.sections@, pos_r, q_r, 0, None),
                    old(self).emitted@ + rounds(self.sections@, pos_r, q_r) == merged(self.sections@),
                    left_round == left(self.sections@, pos_r),
                decreases n - j,
            {
                let at = self.positions[j];
                if at < self.sections[j].len() {
                    let x = self.sections[j][at];
                    proof {
                        lemma_left_step(self.sections@, self.positions@, j as int);
                        assert(self.sections@[j as int]@[at as int] == x);
                        assert(x.wf());
                    }
                    let ghost pos0 = self.positions@;
                    let ghost q0 = self.queue@;
                    self.positions.set(j, at + 1);
                    let es = match earliest {
                        None => x.start,
                        Some(e) => if e < x.start { e } else { x.start },
                    };
                    proof {
                        let s = self.sections@[j as int]@;
                        assert forall|k: int| at + 1 <= k < s.len() implies es <= (#[trigger] s[k]).start by {
                            assert(s[at as int].end <= s[k].start);
                        }
                    }
                    assert(es == min_start(earliest, x.start));
                    earliest = Some(es);
                    insert_section(&mut self.queue, x);
                    proof {
                        assert forall|p: int| #[trigger] books(self.emitted@, self.buffer@, self.queue@, pending_value(self.sections@, self.positions@, p), p)
                            == input_value(self.sections@, p) by {
                            lemma_pending_step(self.sections@, pos0, j as int, p);
                            assert(books(self.emitted@, self.buffer@, q0, pending_value(self.sections@, pos0, p), p) == input_value(self.sections@, p));
                            lemma_books_pull(self.emitted@, self.buffer@, q0, self.queue@, pending_value(self.sections@, pos0, p),
                                pending_value(self.sections@, self.positions@, p), value_at(x, p), p);
                        }
                    }
                }
                j = j + 1;
            }
            let ghost pos2 = self.positions@;
            let ghost q2 = self.queue@;
            assert(pull_round(self.sections@, pos_r, q_r, 0, None) == (pos2, q2, earliest));
            match earliest {
                None => {
                    proof {
                        lemma_left_nonneg(self.sections@, self.positions@);
                        lemma_pull_exhausted(self.sections@, self.positions@, Seq::empty(), 0, None);
                        assert(rounds(self.sections@, self.positions@, Seq::empty()) == Seq::<ValueSection>::empty());
                        assert(rounds(self.sections@, pos_r, q_r) == q2);
                    }
                    if self.queue.len() > 0 {
                        let ghost q = self.queue@;
                        self.buffer_end = Ghost(q.last().end as int);
                        proof {
                            assert forall|k: int| 0 <= k < q.len() implies (#[trigger] q[k]).end <= q.last().end by {
                                if k < q.len() - 1 {
                                    assert(q[k].end <= q[q.len() - 1].start);
                                    assert(q[q.len() - 1].wf());
                                }
                            }
                        }
                        assert(self.buffer@ =~= Seq::<ValueSection>::empty());
                        std::mem::swap(&mut self.buffer, &mut self.queue);
                        proof {
                            assert forall|p: int| #[trigger] books(self.emitted@, self.buffer@, self.queue@, pending_value(self.sections@, self.positions@, p), p)
                                == input_value(self.sections@, p) by {
                                assert(self.queue@ =~= Seq::<ValueSection>::empty());
                                lemma_books_swap(self.emitted@, q, pending_value(self.sections@, self.positions@, p), p);
                                assert(books(self.emitted@, Seq::<ValueSection>::empty(), q, pending_value(self.sections@, self.positions@, p), p) == input_value(self.sections@, p));
                            }
                        }
                        assert(self.queue@ =~= Seq::<ValueSection>::empty());
                    }
                    assert(self.emitted@ + self.buffer@ + rounds(self.sections@, self.positions@, self.queue@) =~= old(self).emitted@ + q2) by {
                        if q2.len() == 0 {
                            assert(self.queue@ =~= Seq::<ValueSection>::empty());
                        }
                    }
                    break;
                },
                Some(es) => {
                    while self.queue.len() > 0 && self.queue[0].end <= es
                        invariant
                            sorted_disjoint(self.queue@),
                            sorted_disjoint(self.buffer@),
                            starts_at_least(self.buffer@, self.last_end@),
                            self.last_end@ <= self.buffer_end@,
                            forall|k: int| 0 <= k < self.buffer@.len() ==> (#[trigger] self.buffer@[k]).end <= self.buffer_end@,
                            starts_at_least(self.queue@, self.buffer_end@),
                            self.buffer_end@ <= es,
                            self.sections@ == old(self).sections@,
                            self.last_end@ == old(self).last_end@,
                            self.positions@.len() == self.sections@.len(),
                            forall|i: int| 0 <= i < self.sections@.len() ==> self.positions@[i] <= (#[trigger] self.sections@[i])@.len(),
                            forall|i: int| 0 <= i < self.sections@.len() ==> sorted_disjoint((#[trigger] self.sections@[i])@),
                            sources_start_at_least(self.sections@, self.positions@, 0, self.sections@.len() as int, es as int),
                            left(self.sections@, self.positions@) < left_round,
                            left_round <= left0,
                            self.emitted@ == old(self).emitted@,
                            balanced(self.emitted@, self.buffer@, self.queue@, self.sections@, self.positions@),
                            self.buffer@ + drain(self.queue@, es).0 == drain(q2, es).0,
                            drain(self.queue@, es).1 == drain(q2, es).1,
                            self.positions@ == pos2,
                            old(self).emitted@ + rounds(self.sections@, pos_r, q_r) == merged(self.sections@),
                            left_round == left(self.sections@, pos_r),
                        decreases self.queue@.len(),
                    {
                        let ghost q = self.queue@;
                        let ghost b = self.buffer@;
                        let f = self.queue.remove(0);
                        proof {
                            assert(self.queue@ =~= q.skip(1));
                            assert(f.wf());
                            assert forall|a: int, c: int| 0 <= a < c < q.len() - 1 implies (#[trigger] q.skip(1)[a]).end <= (#[trigger] q.skip(1)[c]).start by {
                                assert(q.skip(1)[a] == q[a + 1] && q.skip(1)[c] == q[c + 1]);
                            }
                            assert forall|a: int| 0 <= a < q.len() - 1 implies (#[trigger] q.skip(1)[a]).wf() && f.end <= q.skip(1)[a].start by {
                                assert(q.skip(1)[a] == q[a + 1]);
                            }
                            assert forall|a: int| 0 <= a < b.len() implies (#[trigger] b[a]).end <= f.start by {}
                        }
                        self.buffer.push(f);
                        self.buffer_end = Ghost(f.end as int);
                        assert(self.buffer@ + drain(self.queue@, es).0 =~= b + drain(q, es).0);
                        proof {
                            assert forall|p: int| #[trigger] books(self.emitted@, self.buffer@, self.queue@, pending_value(self.sections@, self.positions@, p), p)
                                == input_value(self.sections@, p) by {
                                lemma_books_to_buffer(self.emitted@, b, q, pending_value(self.sections@, self.positions@, p), p);
                                assert(books(self.emitted@, b, q, pending_value(self.sections@, self.positions@, p), p) == input_value(self.sections@, p));
                            }
                        }
                        proof {
                            let b2 = self.buffer@;
                            assert forall|a: int, c: int| 0 <= a < c < b2.len() implies (#[trigger] b2[a]).end <= (#[trigger] b2[c]).start by {
                                if c == b2.len() - 1 {
                                    assert(b2[c] == f);
                                    if a < b.len() {
                                        assert(b2[a] == b[a]);
                                    }
                                } else {
                                    assert(b2[a] == b[a] && b2[c] == b[c]);
                                }
                            }
                            assert forall|a: int| 0 <= a < b2.len() implies (#[trigger] b2[a]).wf() && b2[a].end <= f.end && self.last_end@ <= b2[a].start by {
                                if a < b.len() {
                                    assert(b2[a] == b[a]);
                                    assert(b[a].end <= f.start);
                                }
                            }
                        }
                    }
                    proof {
                        lemma_left_nonneg(self.sections@, self.positions@);
                        assert(drain(self.queue@, es) == (Seq::<ValueSection>::empty(), self.queue@));
                        assert(self.buffer@ =~= self.buffer@ + Seq::<ValueSection>::empty());
                        assert(rounds(self.sections@, pos_r, q_r) == self.buffer@ + rounds(self.sections@, pos2, self.queue@));
                        assert(self.emitted@ + self.buffer@ + rounds(self.sections@, self.positions@, self.queue@)
                            =~= old(self).emitted@ + (self.buffer@ + rounds(self.sections@, pos2, self.queue@)));
                    }
                    if self.buffer.len() > 0 {
                        break;
                    }
                },
            }
        }
        if self.buffer.len() == 0 {
            proof {
                lemma_left_nonneg(self.sections@, self.positions@);
                assert forall|p: int| #[trigger] seq_value_at(self.emitted@, p) == input_value(self.sections@, p) by {
                    lemma_pending_done(self.sections@, self.positions@, p);
                    assert(self.buffer@ =~= Seq::<ValueSection>::empty());
                    assert(self.queue@ =~= Seq::<ValueSection>::empty());
                    assert(books(self.emitted@, self.buffer@, self.queue@, pending_value(self.sections@, self.positions@, p), p) == input_value(self.sections@, p));
                    lemma_plus_laws();
                }
                lemma_pull_exhausted(self.sections@, self.positions@, Seq::empty(), 0, None);
                assert(self.queue@ =~= Seq::<ValueSection>::empty());
                assert(self.buffer@ =~= Seq::<ValueSection>::empty());
                assert(rounds(self.sections@, self.positions@, self.queue@) == Seq::<ValueSection>::empty());
                assert(self.emitted@ + self.buffer@ + rounds(self.sections@, self.positions@, self.queue@) =~= self.emitted@);
                self.lemma_emitted_prefix();
            }
            return None;
        }
        proof {
            let b = self.buffer@;
            assert(b[0].wf());
            assert forall|a: int, c: int| 0 <= a < c < b.len() - 1 implies (#[trigger] b.skip(1)[a]).end <= (#[trigger] b.skip(1)[c]).start by {
                assert(b.skip(1)[a] == b[a + 1] && b.skip(1)[c] == b[c + 1]);
            }
            assert forall|a: int| 0 <= a < b.len() - 1 implies (#[trigger] b.skip(1)[a]).wf() && b[0].end <= b.skip(1)[a].start && b.skip(1)[a].end <= self.buffer_end@ by {
                assert(b.skip(1)[a] == b[a + 1]);
            }
        }
        proof {
            lemma_left_nonneg(self.sections@, self.positions@);
        }
        let ghost b0 = self.buffer@;
        let ghost e0 = self.emitted@;
        let r = self.buffer.remove(0);
        self.last_end = Ghost(r.end as int);
        self.emitted = Ghost(e0.push(r));
        assert(self.buffer@ =~= b0.skip(1));
        assert(self.emitted@ + self.buffer@ + rounds(self.sections@, self.positions@, self.queue@)
            =~= e0 + b0 + rounds(self.sections@, self.positions@, self.queue@));
        proof {
            assert forall|p: int| #[trigger] books(self.emitted@, self.buffer@, self.queue@, pending_value(self.sections@, self.positions@, p), p)
                == input_value(self.sections@, p) by {
                lemma_books_hand_out(e0, b0, self.queue@, pending_value(self.sections@, self.positions@, p), p);
            }
            self.lemma_emitted_prefix();
        }
        Some(r)
    }
}

/// Every source is a sorted run of disjoint, non-empty sections.
pub open spec fn sources_wf(sections: Seq<Vec<ValueSection>>) -> bool {
    forall|j: int| 0 <= j < sections.len() ==> sorted_disjoint((#[trigger] sections[j])@)
}

/// Starts merging `sections`, each a sorted run of disjoint sections.
pub fn merge_sections_many(sections: Vec<Vec<ValueSection>>) -> (r: ValueSectionIter)
    requires
        sources_wf(sections@),
    ensures
        r.wf(),
        r.emitted_end() == 0,
        r.emitted() == Seq::<ValueSection>::empty(),
        r.sources() == sections@,
{
    let n = sections.len();
    let mut positions: Vec<usize> = Vec::new();
    let mut j: usize = 0;
    while j < n
        invariant
            n == sections@.len(),
            j <= n,
            positions@.len() == j,
            forall|i: int| 0 <= i < j ==> positions@[i] == 0,
        decreases n - j,
    {
        positions.push(0);
        j = j + 1;
    }
    let r = ValueSectionIter {
        sections,
        positions,
        queue: Vec::new(),
        buffer: Vec::new(),
        last_end: Ghost(0),
        buffer_end: Ghost(0),
        emitted: Ghost(Seq::empty()),
    };
    assert(r.queue@ =~= Seq::<ValueSection>::empty());
    assert(r.buffer@ =~= Seq::<ValueSection>::empty());
    proof {
        assert(r.positions@ =~= Seq::new(r.sections@.len(), |j: int| 0usize));
        assert(r.emitted@ + r.buffer@ + rounds(r.sections@, r.positions@, r.queue@) =~= rounds(r.sections@, r.positions@, r.queue@));
        assert forall|p: int| #[trigger] books(r.emitted@, r.buffer@, r.queue@, pending_value(r.sections@, r.positions@, p), p)
            == input_value(r.sections@, p) by {
            lemma_pending_start(r.sections@, r.positions@, p);
            lemma_plus_laws();
        }
    }
    r
}

/// Merges `sections`, each a sorted run of disjoint sections, and collects
/// the whole result. The result is sorted and disjoint: each section ends at
/// or before the start of the next.
pub fn merge_all(sections: Vec<Vec<ValueSection>>) -> (r: Vec<ValueSection>)
    requires
        sources_wf(sections@),
    ensures
        sorted_disjoint(r@),
        forall|p: int| #[trigger] seq_value_at(r@, p) == input_value(sections@, p),
        r@ == merged(sections@),
{
    let ghost srcs = sections@;
    let mut it = merge_sections_many(sections);
    let mut out: Vec<ValueSection> = Vec::new();
    loop
        invariant
            it.wf(),
            sorted_disjoint(out@),
            forall|k: int| 0 <= k < out@.len() ==> (#[trigger] out@[k]).end <= it.emitted_end(),
            out@ == it.emitted(),
            it.sources() == srcs,
            srcs == sections@,
        decreases it.work().0, it.work().1,
    {
        let ghost before = out@;
        match it.next() {
            None => {
                proof {
                    assert forall|p: int| #[trigger] seq_value_at(out@, p) == input_value(srcs, p) by {
                        assert(seq_value_at(it.emitted(), p) == input_value(it.sources(), p));
                    }
                }
                return out;
            },
            Some(s) => {
                out.push(s);
                proof {
                    let o = out@;
                    assert forall|a: int, c: int| 0 <= a < c < o.len() implies (#[trigger] o[a]).end <= (#[trigger] o[c]).start by {
                        if c < before.len() {
                            assert(o[a] == before[a] && o[c] == before[c]);
                        } else {
                            assert(o[a] == before[a]);
                        }
                    }
                    assert forall|a: int| 0 <= a < o.len() implies (#[trigger] o[a]).wf() && o[a].end <= it.emitted_end() by {
                        if a < before.len() {
                            assert(o[a] == before[a]);
                        }
                    }
                }
            },
        }
    }
}

/// A position where a sorted, disjoint run is worth something other than
/// zero lies in one of its sections.
proof fn lemma_nonzero_covered(s: Seq<ValueSection>, p: int)
    requires
        sorted_disjoint(s),
        seq_value_at(s, p) != 0,
    ensures
        exists|k: int| 0 <= k < s.len() && (#[trigger] s[k]).start <= p < s[k].end,
    decreases s.len(),
{
    lemma_plus_laws();
    let d = s.drop_last();
    if !(s.last().start <= p < s.last().end) {
        assert(sorted_disjoint(d)) by {
            assert forall|a: int, b: int| 0 <= a < b < d.len() implies (#[trigger] d[a]).end <= (#[trigger] d[b]).start by {
                assert(d[a] == s[a] && d[b] == s[b]);
            }
            assert forall|a: int| 0 <= a < d.len() implies (#[trigger] d[a]).wf() by {
                assert(d[a] == s[a]);
            }
        }
        lemma_nonzero_covered(d, p);
        let k = choose|k: int| 0 <= k < d.len() && (#[trigger] d[k]).start <= p < d[k].end;
        assert(s[k] == d[k]);
    } else {
        assert(s[s.len() - 1] == s.last());
    }
}

/// Every position where the sources add up to something other than zero is
/// covered by exactly one section of their merge.
pub proof fn lemma_merge_coverage(sources: Seq<Vec<ValueSection>>, merged: Seq<ValueSection>, p: int)
    requires
        sorted_disjoint(merged),
        forall|x: int| #[trigger] seq_value_at(merged, x) == input_value(sources, x),
        input_value(sources, p) != 0,
    ensures
        exists|k: int| 0 <= k < merged.len() && (#[trigger] merged[k]).start <= p < merged[k].end,
        forall|k1: int, k2: int|
            0 <= k1 < merged.len() && 0 <= k2 < merged.len()
            && (#[trigger] merged[k1]).start <= p < merged[k1].end
            && (#[trigger] merged[k2]).start <= p < merged[k2].end ==> k1 == k2,
{
    assert(seq_value_at(merged, p) == input_value(sources, p));
    lemma_nonzero_covered(merged, p);
    assert forall|k1: int, k2: int|
        0 <= k1 < merged.len() && 0 <= k2 < merged.len()
        && (#[trigger] merged[k1]).start <= p < merged[k1].end
        && (#[trigger] merged[k2]).start <= p < merged[k2].end implies k1 == k2 by {
        if k1 < k2 {
            assert(merged[k1].end <= merged[k2].start);
        } else if k2 < k1 {
            assert(merged[k2].end <= merged[k1].start);
        }
    }
}

proof fn lemma_input_value_remove(s: Seq<Vec<ValueSection>>, i: int, p: int)
    requires
        0 <= i < s.len(),
    ensures
        input_value(s, p) == plus(input_value(s.remove(i), p), seq_value_at(s[i]@, p)),
    decreases s.len(),
{
    if i == s.len() - 1 {
        assert(s.remove(i) =~= s.drop_last());
    } else {
        let d = s.drop_last();
        lemma_input_value_remove(d, i, p);
        assert(s.remove(i).drop_last() =~= d.remove(i));
        assert(s.remove(i).last() == s.last());
        assert(d[i] == s[i]);
        lemma_rotate(input_value(d.remove(i), p), seq_value_at(s[i]@, p), seq_value_at(s.last()@, p));
    }
}

/// Sources that are a reordering of one another add up to the same value at
/// every position.
pub proof fn lemma_input_value_reorder(s: Seq<Vec<ValueSection>>, t: Seq<Vec<ValueSection>>, p: int)
    requires
        s.to_multiset() == t.to_multiset(),
    ensures
        input_value(s, p) == input_value(t, p),
    decreases s.len(),
{
    broadcast use vstd::seq_lib::to_multiset_len, vstd::seq_lib::to_multiset_contains, vstd::seq_lib::to_multiset_remove;

    if s.len() == 0 {
        assert(t.to_multiset().len() == 0);
        assert(t =~= Seq::<Vec<ValueSection>>::empty());
    } else {
        let x = s.last();
        assert(s.contains(x)) by {
            assert(s[s.len() - 1] == x);
        }
        assert(s.to_multiset().count(x) > 0);
        assert(t.contains(x));
        let i = choose|i: int| 0 <= i < t.len() && t[i] == x;
        assert(s.remove(s.len() - 1) =~= s.drop_last());
        assert(s.remove(s.len() - 1).to_multiset() == s.to_multiset().remove(x));
        assert(t.remove(i).to_multiset() == t.to_multiset().remove(x));
        lemma_input_value_reorder(s.drop_last(), t.remove(i), p);
        lemma_input_value_remove(t, i, p);
    }
}

/// Merging the same sources in another order gives a result worth the same
/// at every position.
pub proof fn lemma_merge_order_free(
    sources: Seq<Vec<ValueSection>>,
    reordered: Seq<Vec<ValueSection>>,
    merged: Seq<ValueSection>,
    merged_reordered: Seq<ValueSection>,
    p: int,
)
    requires
        reordered.to_multiset() == sources.to_multiset(),
        forall|x: int| #[trigger] seq_value_at(merged, x) == input_value(sources, x),
        forall|x: int| #[trigger] seq_value_at(merged_reordered, x) == input_value(reordered, x),
    ensures
        seq_value_at(merged, p) == seq_value_at(merged_reordered, p),
{
    assert(seq_value_at(merged, p) == input_value(sources, p));
    assert(seq_value_at(merged_reordered, p) == input_value(reordered, p));
    lemma_input_value_reorder(sources, reordered, p);
}

} // verus!
