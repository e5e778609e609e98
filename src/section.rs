use vstd::prelude::*;

verus! {

/// A half-open interval `[start, end)` of a chromosome carrying a value.
///
/// Values are fixed-point integers; they are summed in two's-complement
/// arithmetic, so that summation is associative and commutative everywhere.
/// A sum beyond the range of `i64` wraps around: callers that need exact
/// sums keep their values small enough for the number of sources.
#[derive(Clone, Copy, Debug, PartialEq, Eq, Structural)]
pub struct ValueSection {
    pub start: u32,
    pub end: u32,
    pub value: i64,
}

/// The pieces that merging two overlapping intervals gives: a first piece,
/// up to two continuations, and a tail still to be placed.
pub type Split = (ValueSection, Option<ValueSection>, Option<ValueSection>, Option<ValueSection>);

impl ValueSection {
    /// A section is well formed when it is not empty.
    pub open spec fn wf(self) -> bool {
        self.start < self.end
    }
}

/// The sum of two values.
pub open spec fn plus(a: i64, b: i64) -> i64 {
    a.wrapping_add(b)
}

/// Summing values is commutative and associative, with zero as identity.
pub proof fn lemma_plus_laws()
    ensures
        forall|a: i64, b: i64| #[trigger] plus(a, b) == plus(b, a),
        forall|a: i64| #[trigger] plus(a, 0) == a,
        forall|a: i64| #[trigger] plus(0, a) == a,
        forall|a: i64, b: i64, c: i64| #[trigger] plus(plus(a, b), c) == plus(a, plus(b, c)),
{
}

/// A section with the given bounds and value.
pub open spec fn sec(start: u32, end: u32, value: i64) -> ValueSection {
    ValueSection { start, end, value }
}

/// The value that `s` contributes at position `p`.
pub open spec fn value_at(s: ValueSection, p: int) -> i64 {
    if s.start <= p < s.end {
        s.value
    } else {
        0
    }
}

/// The value that an optional section contributes at position `p`.
pub open spec fn opt_value_at(s: Option<ValueSection>, p: int) -> i64 {
    match s {
        Some(s) => value_at(s, p),
        None => 0,
    }
}

/// Two sections overlap when they share a position.
pub open spec fn overlaps(a: ValueSection, b: ValueSection) -> bool {
    a.start < b.end && b.start < a.end
}

/// How `one` and `two` are split, by the relative order of their starts and
/// ends and by which of their values are zero. A zero-valued section that lies
/// inside the other, or that ends with it, is absorbed.
pub open spec fn split(a: ValueSection, b: ValueSection) -> Split {
    let sum = plus(a.value, b.value);
    if a.start == b.start {
        if a.end == b.end {
            (sec(a.start, a.end, sum), None, None, None)
        } else if a.end < b.end {
            (sec(a.start, a.end, sum), None, None, Some(sec(a.end, b.end, b.value)))
        } else if b.value == 0 {
            (a, None, None, None)
        } else {
            (sec(b.start, b.end, sum), Some(sec(b.end, a.end, a.value)), None, None)
        }
    } else if a.start < b.start {
        if a.end == b.end {
            if b.value == 0 {
                (a, None, None, None)
            } else {
                (sec(a.start, b.start, a.value), Some(sec(b.start, b.end, sum)), None, None)
            }
        } else if a.end < b.end {
            if a.value == 0 && b.value == 0 {
                (a, None, None, Some(sec(a.end, b.end, 0)))
            } else if a.value == 0 {
                (
                    sec(a.start, b.start, 0),
                    Some(sec(b.start, a.end, b.value)),
                    None,
                    Some(sec(a.end, b.end, b.value)),
                )
            } else if b.value == 0 {
                (a, None, None, Some(sec(a.end, b.end, 0)))
            } else {
                (
                    sec(a.start, b.start, a.value),
                    Some(sec(b.start, a.end, sum)),
                    None,
                    Some(sec(a.end, b.end, b.value)),
                )
            }
        } else if b.value == 0 {
            (a, None, None, None)
        } else {
            (
                sec(a.start, b.start, a.value),
                Some(sec(b.start, b.end, sum)),
                Some(sec(b.end, a.end, a.value)),
                None,
            )
        }
    } else {
        if a.end == b.end {
            if a.value == 0 {
                (b, None, None, None)
            } else {
                (sec(b.start, a.start, b.value), Some(sec(a.start, a.end, sum)), None, None)
            }
        } else if a.end < b.end {
            if a.value == 0 {
                (b, None, None, None)
            } else {
                (
                    sec(b.start, a.start, b.value),
                    Some(sec(a.start, a.end, sum)),
                    None,
                    Some(sec(a.end, b.end, b.value)),
                )
            }
        } else if a.value == 0 && b.value == 0 {
            (sec(b.start, a.end, 0), None, None, None)
        } else if a.value == 0 {
            (b, Some(sec(b.end, a.end, a.value)), None, None)
        } else if b.value == 0 {
            (sec(b.start, a.start, 0), Some(sec(a.start, a.end, a.value)), None, None)
        } else {
            (
                sec(b.start, a.start, b.value),
                Some(sec(a.start, b.end, sum)),
                Some(sec(b.end, a.end, a.value)),
                None,
            )
        }
    }
}

/// Merges `two` into `one`, which it overlaps.
///
/// Returns the merged pieces in genomic order: the first piece, an optional
/// second and third piece, and an optional overhang of `two` past the end of
/// `one`, which the caller still has to place.
pub fn merge_into(one: ValueSection, two: ValueSection) -> (r: Split)
    requires
        one.wf(),
        two.wf(),
        overlaps(one, two),
    ensures
        r == split(one, two),
{
    let sum = one.value.wrapping_add(two.value);
    if one.start == two.start {
        if one.end == two.end {
            (ValueSection { start: one.start, end: one.end, value: sum }, None, None, None)
        } else if one.end < two.end {
            (
                ValueSection { start: one.start, end: one.end, value: sum },
                None,
                None,
                Some(ValueSection { start: one.end, end: two.end, value: two.value }),
            )
        } else if two.value == 0 {
            (one, None, None, None)
        } else {
            (
                ValueSection { start: two.start, end: two.end, value: sum },
                Some(ValueSection { start: two.end, end: one.end, value: one.value }),
                None,
                None,
            )
        }
    } else if one.start < two.start {
        if one.end == two.end {
            if two.value == 0 {
                (one, None, None, None)
            } else {
                (
                    ValueSection { start: one.start, end: two.start, value: one.value },
                    Some(ValueSection { start: two.start, end: two.end, value: sum }),
                    None,
                    None,
                )
            }
        } else if one.end < two.end {
            if one.value == 0 && two.value == 0 {
                (one, None, None, Some(ValueSection { start: one.end, end: two.end, value: 0 }))
            } else if one.value == 0 {
                (
                    ValueSection { start: one.start, end: two.start, value: 0 },
                    Some(ValueSection { start: two.start, end: one.end, value: two.value }),
                    None,
                    Some(ValueSection { start: one.end, end: two.end, value: two.value }),
                )
            } else if two.value == 0 {
                (one, None, None, Some(ValueSection { start: one.end, end: two.end, value: 0 }))
            } else {
                (
                    ValueSection { start: one.start, end: two.start, value: one.value },
                    Some(ValueSection { start: two.start, end: one.end, value: sum }),
                    None,
                    Some(ValueSection { start: one.end, end: two.end, value: two.value }),
                )
            }
        } else if two.value == 0 {
            (one, None, None, None)
        } else {
            (
                ValueSection { start: one.start, end: two.start, value: one.value },
                Some(ValueSection { start: two.start, end: two.end, value: sum }),
                Some(ValueSection { start: two.end, end: one.end, value: one.value }),
                None,
            )
        }
    } else {
        if one.end == two.end {
            if one.value == 0 {
                (two, None, None, None)
            } else {
                (
                    ValueSection { start: two.start, end: one.start, value: two.value },
                    Some(ValueSection { start: one.start, end: one.end, value: sum }),
                    None,
                    None,
                )
            }
        } else if one.end < two.end {
            if one.value == 0 {
                (two, None, None, None)
            } else {
                (
                    ValueSection { start: two.start, end: one.start, value: two.value },
                    Some(ValueSection { start: one.start, end: one.end, value: sum }),
                    None,
                    Some(ValueSection { start: one.end, end: two.end, value: two.value }),
                )
            }
        } else if one.value == 0 && two.value == 0 {
            (ValueSection { start: two.start, end: one.end, value: 0 }, None, None, None)
        } else if one.value == 0 {
            (two, Some(ValueSection { start: two.end, end: one.end, value: one.value }), None, None)
        } else if two.value == 0 {
            (
                ValueSection { start: two.start, end: one.start, value: 0 },
                Some(ValueSection { start: one.start, end: one.end, value: one.value }),
                None,
                None,
            )
        } else {
            (
                ValueSection { start: two.start, end: one.start, value: two.value },
                Some(ValueSection { start: one.start, end: two.end, value: sum }),
                Some(ValueSection { start: two.end, end: one.end, value: one.value }),
                None,
            )
        }
    }
}

/// Section `s` covers position `p`.
pub open spec fn covers_at(s: ValueSection, p: int) -> bool {
    s.start <= p < s.end
}

/// An optional section covers position `p`.
pub open spec fn opt_covers(s: Option<ValueSection>, p: int) -> bool {
    match s {
        Some(s) => covers_at(s, p),
        None => false,
    }
}

/// What the sections of `s` add up to at position `p`.
pub open spec fn seq_value_at(s: Seq<ValueSection>, p: int) -> i64
    decreases s.len(),
{
    if s.len() == 0 {
        0
    } else {
        plus(seq_value_at(s.drop_last(), p), value_at(s.last(), p))
    }
}

/// The value of two runs one after the other is the sum of their values.
pub proof fn lemma_seq_value_concat(a: Seq<ValueSection>, b: Seq<ValueSection>, p: int)
    ensures
        seq_value_at(a + b, p) == plus(seq_value_at(a, p), seq_value_at(b, p)),
    decreases b.len(),
{
    lemma_plus_laws();
    if b.len() == 0 {
        assert(a + b =~= a);
    } else {
        lemma_seq_value_concat(a, b.drop_last(), p);
        assert((a + b).drop_last() =~= a + b.drop_last());
        assert((a + b).last() == b.last());
    }
}

/// The value of a single section is its own.
pub proof fn lemma_seq_value_one(x: ValueSection, p: int)
    ensures
        seq_value_at(seq![x], p) == value_at(x, p),
{
    lemma_plus_laws();
    let s = seq![x];
    assert(s.drop_last() =~= Seq::<ValueSection>::empty());
    assert(s.last() == x);
    assert(seq_value_at(s.drop_last(), p) == 0);
    assert(seq_value_at(s, p) == plus(0, value_at(x, p)));
}

/// The pieces of a split that are present, in genomic order, overhang left out.
pub open spec fn pieces(r: Split) -> Seq<ValueSection> {
    let first = seq![r.0];
    let with_second = match r.1 {
        Some(s) => first.push(s),
        None => first,
    };
    match r.2 {
        Some(t) => with_second.push(t),
        None => with_second,
    }
}

/// Sections that are each non-empty and that follow one another without overlap.
pub open spec fn sorted_disjoint(s: Seq<ValueSection>) -> bool {
    &&& forall|i: int| 0 <= i < s.len() ==> (#[trigger] s[i]).wf()
    &&& forall|i: int, j: int| 0 <= i < j < s.len() ==> (#[trigger] s[i]).end <= (#[trigger] s[j]).start
}

/// What the pieces and the overhang of a split add up to at position `p`.
pub open spec fn split_value_at(r: Split, p: int) -> i64 {
    plus(plus(value_at(r.0, p), opt_value_at(r.1, p)), plus(opt_value_at(r.2, p), opt_value_at(r.3, p)))
}

/// The pieces of a split add up to their values, absent pieces counting zero.
pub proof fn lemma_pieces_value(r: Split, p: int)
    ensures
        plus(seq_value_at(pieces(r), p), opt_value_at(r.3, p)) == split_value_at(r, p),
{
    lemma_plus_laws();
    let first = seq![r.0];
    lemma_seq_value_one(r.0, p);
    let with_second = match r.1 {
        Some(x) => first.push(x),
        None => first,
    };
    assert(seq_value_at(with_second, p) == plus(value_at(r.0, p), opt_value_at(r.1, p))) by {
        if r.1 is Some {
            assert(with_second.drop_last() =~= first);
        }
    }
    assert(seq_value_at(pieces(r), p) == plus(seq_value_at(with_second, p), opt_value_at(r.2, p))) by {
        if r.2 is Some {
            assert(pieces(r).drop_last() =~= with_second);
        }
    }
}

/// The pieces or the overhang of a split cover position `p`.
pub open spec fn split_covers(r: Split, p: int) -> bool {
    covers_at(r.0, p) || opt_covers(r.1, p) || opt_covers(r.2, p) || opt_covers(r.3, p)
}

/// Merging two overlapping sections loses and invents nothing: at every
/// position the pieces and the overhang add up to the sum of the two inputs.
/// The pieces are non-empty, in order and disjoint, and start where the
/// earlier input starts. Together they cover exactly what the inputs cover.
/// An overhang is a non-empty tail of `two` that starts
/// where `one` ends, after the last piece, so that placing it again makes
/// progress.
pub proof fn lemma_split_sound(one: ValueSection, two: ValueSection)
    requires
        one.wf(),
        two.wf(),
        overlaps(one, two),
    ensures
        forall|p: int| #[trigger] split_value_at(split(one, two), p) == plus(value_at(one, p), value_at(two, p)),
        sorted_disjoint(pieces(split(one, two))),
        pieces(split(one, two))[0].start == if one.start <= two.start { one.start } else { two.start },
        pieces(split(one, two)).last().end <= if one.end >= two.end { one.end } else { two.end },
        pieces(split(one, two)).last().start < one.end,
        forall|p: int| #[trigger] split_covers(split(one, two), p) == (covers_at(one, p) || covers_at(two, p)),
        split(one, two).3 is Some ==> {
            let o = split(one, two).3.unwrap();
            &&& o.wf()
            &&& o.start == one.end
            &&& o.end == two.end
            &&& two.start < o.start
            &&& pieces(split(one, two)).last().end == o.start
        },
{
    let r = split(one, two);
    assert forall|x: i64| plus(x, 0) == x && plus(0, x) == x by {}
    assert forall|p: int| #[trigger] split_value_at(r, p) == plus(value_at(one, p), value_at(two, p)) by {
        let x = value_at(one, p);
        let y = value_at(two, p);
        assert(plus(x, y) == plus(y, x));
    }
}

/// Whether `v` is a sorted run of disjoint, non-empty sections, as every
/// source of a merge must be.
pub fn is_sorted_disjoint(v: &Vec<ValueSection>) -> (r: bool)
    ensures
        r == sorted_disjoint(v@),
{
    let n = v.len();
    let mut k: usize = 0;
    while k < n
        invariant
            n == v@.len(),
            k <= n,
            sorted_disjoint(v@.take(k as int)),
            k > 0 ==> forall|a: int| 0 <= a < k ==> (#[trigger] v@[a]).end <= v@[k - 1].end,
        decreases n - k,
    {
        let s = v[k];
        if s.start >= s.end || (k > 0 && v[k - 1].end > s.start) {
            proof {
                if s.start >= s.end {
                    assert(!v@[k as int].wf());
                } else {
                    assert(v@[k - 1].end > v@[k as int].start);
                }
            }
            return false;
        }
        proof {
            let t = v@.take(k as int + 1);
            assert forall|a: int, b: int| 0 <= a < b < t.len() implies (#[trigger] t[a]).end <= (#[trigger] t[b]).start by {
                if b < k {
                    assert(v@.take(k as int)[a] == t[a] && v@.take(k as int)[b] == t[b]);
                } else {
                    assert(t[a] == v@[a]);
                    if a < k - 1 {
                        assert(v@.take(k as int)[a] == v@[a]);
                    }
                }
            }
            assert forall|a: int| 0 <= a < t.len() implies (#[trigger] t[a]).wf() by {
                if a < k {
                    assert(v@.take(k as int)[a] == t[a]);
                }
            }
            assert forall|a: int| 0 <= a < k + 1 implies (#[trigger] v@[a]).end <= v@[k as int].end by {
                if a < k {
                    assert(v@[a].end <= v@[k - 1].end);
                }
            }
        }
        k = k + 1;
    }
    assert(v@.take(n as int) =~= v@);
    true
}

} // verus!
