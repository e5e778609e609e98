use vstd::prelude::*;

use crate::section::ValueSection;

verus! {

/// A chromosome as one input file declares it: its name and its length.
pub struct ChromInfo {
    pub name: String,
    pub length: u32,
}

/// A merged section tagged with the chromosome it lies on.
pub struct ValueWithChrom {
    pub chrom: String,
    pub start: u32,
    pub end: u32,
    pub value: i64,
}

/// Tags each of `sections` with `chrom`, keeping their order.
pub fn tag_chrom(chrom: &String, sections: &Vec<ValueSection>) -> (r: Vec<ValueWithChrom>)
    ensures
        r@.len() == sections@.len(),
        forall|k: int| 0 <= k < r@.len() ==> {
            &&& (#[trigger] r@[k]).chrom@ == chrom@
            &&& r@[k].start == sections@[k].start
            &&& r@[k].end == sections@[k].end
            &&& r@[k].value == sections@[k].value
        },
{
    let mut r: Vec<ValueWithChrom> = Vec::new();
    let mut k: usize = 0;
    while k < sections.len()
        invariant
            k <= sections@.len(),
            r@.len() == k,
            forall|j: int| 0 <= j < k ==> {
                &&& (#[trigger] r@[j]).chrom@ == chrom@
                &&& r@[j].start == sections@[j].start
                &&& r@[j].end == sections@[j].end
                &&& r@[j].value == sections@[j].value
            },
        decreases sections@.len() - k,
    {
        let s = sections[k];
        r.push(ValueWithChrom { chrom: chrom.clone(), start: s.start, end: s.end, value: s.value });
        k = k + 1;
    }
    r
}

/// Why the inputs cannot be merged.
pub enum MergeError {
    /// The named chromosome is declared with different lengths by two inputs.
    MetadataConflict { chrom: String },
}

/// The chromosome `k` of input `i`.
pub open spec fn entry(files: Seq<Vec<ChromInfo>>, i: int, k: int) -> ChromInfo {
    files[i]@[k]
}

/// Whether `(i, k)` names a chromosome of an input.
pub open spec fn is_entry(files: Seq<Vec<ChromInfo>>, i: int, k: int) -> bool {
    0 <= i < files.len() && 0 <= k < files[i]@.len()
}

/// Some chromosome is declared by two inputs with different lengths.
pub open spec fn has_conflict(files: Seq<Vec<ChromInfo>>) -> bool {
    exists|i1: int, k1: int, i2: int, k2: int|
        is_entry(files, i1, k1) && is_entry(files, i2, k2)
        && (#[trigger] entry(files, i1, k1)).name@ == (#[trigger] entry(files, i2, k2)).name@
        && entry(files, i1, k1).length != entry(files, i2, k2).length
}

/// `name` is declared, with two different lengths, by the inputs.
pub open spec fn conflicts_on(files: Seq<Vec<ChromInfo>>, name: Seq<char>) -> bool {
    exists|i1: int, k1: int, i2: int, k2: int|
        is_entry(files, i1, k1) && is_entry(files, i2, k2)
        && (#[trigger] entry(files, i1, k1)).name@ == name
        && (#[trigger] entry(files, i2, k2)).name@ == name
        && entry(files, i1, k1).length != entry(files, i2, k2).length
}

/// Entry `(i, k)` comes before position `(i0, k0)` in input order.
pub open spec fn seen(i: int, k: int, i0: int, k0: int) -> bool {
    i < i0 || (i == i0 && k < k0)
}

/// No name occurs twice in `out`.
pub open spec fn names_distinct(out: Seq<ChromInfo>) -> bool {
    forall|a: int, b: int| 0 <= a < b < out.len() ==> (#[trigger] out[a]).name@ != (#[trigger] out[b]).name@
}

/// `c` is a chromosome of the inputs seen before `(i0, k0)`.
pub open spec fn declared_before(files: Seq<Vec<ChromInfo>>, c: ChromInfo, i0: int, k0: int) -> bool {
    exists|i: int, k: int| #![trigger entry(files, i, k)] is_entry(files, i, k) && seen(i, k, i0, k0) && entry(files, i, k) == c
}

/// `out` lists the name of `c` with the length of `c`.
pub open spec fn listed(out: Seq<ChromInfo>, c: ChromInfo) -> bool {
    exists|a: int| #![trigger out[a]] 0 <= a < out.len() && out[a].name@ == c.name@ && out[a].length == c.length
}

/// Each entry of `out` is a chromosome of the inputs seen before `(i0, k0)`.
pub open spec fn drawn_from(files: Seq<Vec<ChromInfo>>, out: Seq<ChromInfo>, i0: int, k0: int) -> bool {
    forall|a: int| 0 <= a < out.len() ==> declared_before(files, #[trigger] out[a], i0, k0)
}

/// Each chromosome of the inputs seen before `(i0, k0)` is in `out` with its length.
pub open spec fn covers(files: Seq<Vec<ChromInfo>>, out: Seq<ChromInfo>, i0: int, k0: int) -> bool {
    forall|i: int, k: int| is_entry(files, i, k) && seen(i, k, i0, k0) ==> listed(out, #[trigger] entry(files, i, k))
}

/// `out` lists each chromosome of the inputs seen before `(i0, k0)` once,
/// with the length it was declared with, and nothing else.
pub open spec fn table_of(files: Seq<Vec<ChromInfo>>, out: Seq<ChromInfo>, i0: int, k0: int) -> bool {
    &&& names_distinct(out)
    &&& drawn_from(files, out, i0, k0)
    &&& covers(files, out, i0, k0)
}

proof fn lemma_next_file(files: Seq<Vec<ChromInfo>>, out: Seq<ChromInfo>, i: int)
    requires
        0 <= i < files.len(),
        table_of(files, out, i, files[i]@.len() as int),
    ensures
        table_of(files, out, i + 1, 0),
{
    let nk = files[i]@.len() as int;
    assert forall|a: int| 0 <= a < out.len() implies declared_before(files, #[trigger] out[a], i + 1, 0) by {
        assert(declared_before(files, out[a], i, nk));
        let w = choose|i2: int, k2: int| #![trigger entry(files, i2, k2)] is_entry(files, i2, k2) && seen(i2, k2, i, nk) && entry(files, i2, k2) == out[a];
        assert(seen(w.0, w.1, i + 1, 0));
    }
    assert forall|i2: int, k2: int| is_entry(files, i2, k2) && seen(i2, k2, i + 1, 0) implies listed(out, #[trigger] entry(files, i2, k2)) by {
        assert(seen(i2, k2, i, nk));
    }
}

/// The chromosome names and lengths of all inputs, each name once, in the
/// order in which the inputs first declare them.
///
/// Fails with `MetadataConflict` exactly when two inputs declare one
/// chromosome with different lengths, naming such a chromosome.
pub fn chrom_sizes(files: &Vec<Vec<ChromInfo>>) -> (r: Result<Vec<ChromInfo>, MergeError>)
    ensures
        r is Err <==> has_conflict(files@),
        r matches Err(MergeError::MetadataConflict { chrom }) ==> conflicts_on(files@, chrom@),
        r matches Ok(v) ==> {
            &&& names_distinct(v@)
            &&& drawn_from(files@, v@, files@.len() as int, 0)
            &&& covers(files@, v@, files@.len() as int, 0)
        },
{
    let mut out: Vec<ChromInfo> = Vec::new();
    let mut i: usize = 0;
    while i < files.len()
        invariant
            0 <= i <= files@.len(),
            table_of(files@, out@, i as int, 0),
        decreases files@.len() - i,
    {
        let file = &files[i];
        let mut k: usize = 0;
        while k < file.len()
            invariant
                0 <= i < files@.len(),
                file@ == files@[i as int]@,
                0 <= k <= file@.len(),
                table_of(files@, out@, i as int, k as int),
            decreases file@.len() - k,
        {
            let c = &file[k];
            assert(entry(files@, i as int, k as int) == *c);
            let mut a: usize = 0;
            let mut found = false;
            while a < out.len()
                invariant_except_break
                    !found,
                invariant
                    0 <= a <= out@.len(),
                    forall|b: int| 0 <= b < a ==> (#[trigger] out@[b]).name@ != c.name@,
                ensures
                    found ==> a < out@.len() && out@[a as int].name@ == c.name@,
                    !found ==> forall|b: int| 0 <= b < out@.len() ==> (#[trigger] out@[b]).name@ != c.name@,
                decreases out@.len() - a,
            {
                if out[a].name == c.name {
                    found = true;
                    break;
                }
                a = a + 1;
            }
            if found {
                let o = &out[a];
                if o.length != c.length {
                    proof {
                        assert(declared_before(files@, out@[a as int], i as int, k as int));
                        let w = choose|i2: int, k2: int| #![trigger entry(files@, i2, k2)] is_entry(files@, i2, k2)
                            && seen(i2, k2, i as int, k as int) && entry(files@, i2, k2) == out@[a as int];
                        assert(is_entry(files@, w.0, w.1) && is_entry(files@, i as int, k as int));
                        assert(entry(files@, w.0, w.1).name@ == entry(files@, i as int, k as int).name@);
                        assert(has_conflict(files@));
                        assert(conflicts_on(files@, c.name@));
                    }
                    return Err(MergeError::MetadataConflict { chrom: c.name.clone() });
                }
                proof {
                    assert forall|i2: int, k2: int| is_entry(files@, i2, k2) && seen(i2, k2, i as int, k + 1)
                        implies listed(out@, #[trigger] entry(files@, i2, k2)) by {
                        if !seen(i2, k2, i as int, k as int) {
                            assert(out@[a as int].name@ == entry(files@, i2, k2).name@);
                        }
                    }
                    assert forall|x: int| 0 <= x < out@.len() implies declared_before(files@, #[trigger] out@[x], i as int, k + 1) by {
                        assert(declared_before(files@, out@[x], i as int, k as int));
                        let w = choose|i2: int, k2: int| #![trigger entry(files@, i2, k2)] is_entry(files@, i2, k2)
                            && seen(i2, k2, i as int, k as int) && entry(files@, i2, k2) == out@[x];
                        assert(seen(w.0, w.1, i as int, k + 1));
                    }
                }
            } else {
                let ghost before = out@;
                out.push(ChromInfo { name: c.name.clone(), length: c.length });
                proof {
                    let o = out@;
                    assert(o[o.len() - 1] == *c);
                    assert forall|x: int, y: int| 0 <= x < y < o.len() implies (#[trigger] o[x]).name@ != (#[trigger] o[y]).name@ by {
                        if y < before.len() {
                            assert(o[x] == before[x] && o[y] == before[y]);
                        } else {
                            assert(o[x] == before[x]);
                        }
                    }
                    assert forall|x: int| 0 <= x < o.len() implies declared_before(files@, #[trigger] o[x], i as int, k + 1) by {
                        if x < before.len() {
                            assert(o[x] == before[x]);
                            assert(declared_before(files@, before[x], i as int, k as int));
                            let w = choose|i2: int, k2: int| #![trigger entry(files@, i2, k2)] is_entry(files@, i2, k2)
                                && seen(i2, k2, i as int, k as int) && entry(files@, i2, k2) == before[x];
                            assert(seen(w.0, w.1, i as int, k + 1));
                        } else {
                            assert(entry(files@, i as int, k as int) == o[x]);
                        }
                    }
                    assert forall|i2: int, k2: int| is_entry(files@, i2, k2) && seen(i2, k2, i as int, k + 1)
                        implies listed(o, #[trigger] entry(files@, i2, k2)) by {
                        if seen(i2, k2, i as int, k as int) {
                            assert(listed(before, entry(files@, i2, k2)));
                            let x = choose|x: int| #![trigger before[x]] 0 <= x < before.len() && before[x].name@ == entry(files@, i2, k2).name@
                                && before[x].length == entry(files@, i2, k2).length;
                            assert(o[x] == before[x]);
                        } else {
                            assert(o[o.len() - 1] == entry(files@, i2, k2));
                        }
                    }
                }
            }
            k = k + 1;
        }
        proof {
            lemma_next_file(files@, out@, i as int);
        }
        i = i + 1;
    }
    proof {
        assert forall|i1: int, k1: int, i2: int, k2: int|
            is_entry(files@, i1, k1) && is_entry(files@, i2, k2)
            && (#[trigger] entry(files@, i1, k1)).name@ == (#[trigger] entry(files@, i2, k2)).name@
            implies entry(files@, i1, k1).length == entry(files@, i2, k2).length by {
            assert(seen(i1, k1, i as int, 0) && seen(i2, k2, i as int, 0));
            assert(listed(out@, entry(files@, i1, k1)));
            assert(listed(out@, entry(files@, i2, k2)));
            let x1 = choose|x: int| #![trigger out@[x]] 0 <= x < out@.len() && out@[x].name@ == entry(files@, i1, k1).name@
                && out@[x].length == entry(files@, i1, k1).length;
            let x2 = choose|x: int| #![trigger out@[x]] 0 <= x < out@.len() && out@[x].name@ == entry(files@, i2, k2).name@
                && out@[x].length == entry(files@, i2, k2).length;
            if x1 != x2 {
                if x1 < x2 {
                    assert(out@[x1].name@ != out@[x2].name@);
                } else {
                    assert(out@[x2].name@ != out@[x1].name@);
                }
            }
        }
    }
    Ok(out)
}

/// `a` comes before `b` in lexicographic order of their characters' code
/// points, a proper prefix coming first.
pub open spec fn name_less(a: Seq<char>, b: Seq<char>) -> bool
    decreases a.len(),
{
    if a.len() == 0 {
        b.len() > 0
    } else if b.len() == 0 {
        false
    } else if a[0] != b[0] {
        (a[0] as u32) < (b[0] as u32)
    } else {
        name_less(a.drop_first(), b.drop_first())
    }
}

proof fn lemma_name_less_asymmetric(a: Seq<char>, b: Seq<char>)
    ensures
        name_less(a, b) ==> !name_less(b, a),
    decreases a.len(),
{
    if a.len() > 0 && b.len() > 0 && a[0] == b[0] {
        lemma_name_less_asymmetric(a.drop_first(), b.drop_first());
    }
}

/// Relies on `<` of `String`, which orders strings lexicographically by code
/// point.
#[verifier::external_body]
fn string_less(a: &String, b: &String) -> (r: bool)
    ensures
        r == name_less(a@, b@),
{
    a < b
}

/// Each name of `v` comes at or after the name before it.
pub open spec fn sorted_by_name(v: Seq<ChromInfo>) -> bool {
    forall|k: int| 0 <= k < v.len() - 1 ==> !name_less((#[trigger] v[k + 1]).name@, v[k].name@)
}

/// Sorts chromosomes by name, keeping all of them.
pub fn sort_by_name(v: Vec<ChromInfo>) -> (r: Vec<ChromInfo>)
    ensures
        r@.to_multiset() == v@.to_multiset(),
        sorted_by_name(r@),
{
    let mut r: Vec<ChromInfo> = Vec::new();
    let mut rest = v;
    let ghost orig = rest@;
    let mut j: usize = 0;
    let n = rest.len();
    assert(r@ =~= orig.take(0));
    while j < n
        invariant
            n == orig.len(),
            j <= n,
            rest@ == orig,
            r@.to_multiset() == orig.take(j as int).to_multiset(),
            sorted_by_name(r@),
        decreases n - j,
    {
        let c = ChromInfo { name: rest[j].name.clone(), length: rest[j].length };
        assert(c == orig[j as int]);
        let mut k: usize = 0;
        while k < r.len() && !string_less(&c.name, &r[k].name)
            invariant
                k <= r@.len(),
                k > 0 ==> !name_less(c.name@, r@[k - 1].name@),
            decreases r@.len() - k,
        {
            k = k + 1;
        }
        let ghost before = r@;
        proof {
            if k < before.len() {
                assert(name_less(c.name@, before[k as int].name@));
                lemma_name_less_asymmetric(c.name@, before[k as int].name@);
            }
        }
        r.insert(k, c);
        proof {
            let s = r@;
            assert(s =~= before.insert(k as int, c));
            assert forall|x: int| 0 <= x < s.len() - 1 implies !name_less((#[trigger] s[x + 1]).name@, s[x].name@) by {
                if x + 1 < k {
                    assert(s[x] == before[x] && s[x + 1] == before[x + 1]);
                } else if x + 1 == k {
                    assert(s[x] == before[x] && s[x + 1] == c);
                } else if x == k {
                    assert(s[x] == c && s[x + 1] == before[x]);
                } else {
                    assert(s[x] == before[x - 1] && s[x + 1] == before[x]);
                    assert(!name_less(before[(x - 1) + 1].name@, before[x - 1].name@));
                }
            }
            assert(orig.take(j as int + 1) =~= orig.take(j as int).push(c));
            vstd::seq_lib::to_multiset_insert(before, k as int, c);
            vstd::seq_lib::to_multiset_build(orig.take(j as int), c);
        }
        j = j + 1;
    }
    assert(orig.take(n as int) =~= orig);
    r
}

/// Input `i` declares a chromosome named `name`.
pub open spec fn declares(files: Seq<Vec<ChromInfo>>, i: int, name: Seq<char>) -> bool {
    exists|k: int| 0 <= k < files[i]@.len() && (#[trigger] files[i]@[k]).name@ == name
}

/// The indices, in increasing order, of the inputs that declare a chromosome
/// named `name`.
pub fn inputs_with_chrom(files: &Vec<Vec<ChromInfo>>, name: &String) -> (r: Vec<usize>)
    ensures
        forall|a: int, b: int| 0 <= a < b < r@.len() ==> r@[a] < r@[b],
        forall|a: int| 0 <= a < r@.len() ==> (#[trigger] r@[a]) < files@.len() && declares(files@, r@[a] as int, name@),
        forall|i: int| 0 <= i < files@.len() && declares(files@, i, name@) ==> r@.contains(i as usize),
{
    let mut r: Vec<usize> = Vec::new();
    let mut i: usize = 0;
    while i < files.len()
        invariant
            i <= files@.len(),
            forall|a: int, b: int| 0 <= a < b < r@.len() ==> r@[a] < r@[b],
            forall|a: int| 0 <= a < r@.len() ==> (#[trigger] r@[a]) < i && declares(files@, r@[a] as int, name@),
            forall|x: int| 0 <= x < i && declares(files@, x, name@) ==> r@.contains(x as usize),
        decreases files@.len() - i,
    {
        let file = &files[i];
        let mut k: usize = 0;
        let mut found = false;
        while k < file.len()
            invariant_except_break
                !found,
            invariant
                file@ == files@[i as int]@,
                k <= file@.len(),
                forall|x: int| 0 <= x < k ==> (#[trigger] file@[x]).name@ != name@,
            ensures
                found ==> k < file@.len() && file@[k as int].name@ == name@,
                !found ==> forall|x: int| 0 <= x < file@.len() ==> (#[trigger] file@[x]).name@ != name@,
            decreases file@.len() - k,
        {
            if file[k].name == *name {
                found = true;
                break;
            }
            k = k + 1;
        }
        let ghost before = r@;
        if found {
            r.push(i);
            proof {
                assert(declares(files@, i as int, name@)) by {
                    assert(files@[i as int]@[k as int].name@ == name@);
                }
                assert forall|x: int| 0 <= x < i + 1 && declares(files@, x, name@) implies r@.contains(x as usize) by {
                    if x < i {
                        assert(before.contains(x as usize));
                        let w = choose|w: int| 0 <= w < before.len() && before[w] == x as usize;
                        assert(r@[w] == before[w]);
                    } else {
                        assert(r@[before.len() as int] == i);
                    }
                }
            }
        } else {
            proof {
                assert(!declares(files@, i as int, name@));
            }
        }
        i = i + 1;
    }
    r
}

} // verus!
