use vstd::prelude::*;

verus! {

/// The parts laid out in order, with `seps[k]` between `parts[k]` and `parts[k + 1]`.
pub open spec fn interleave<T>(parts: Seq<Seq<T>>, seps: Seq<T>) -> Seq<T>
    decreases parts.len(),
{
    if parts.len() == 0 {
        seq![]
    } else if parts.len() == 1 || seps.len() == 0 {
        parts[0]
    } else {
        parts[0] + seq![seps[0]] + interleave(parts.drop_first(), seps.drop_first())
    }
}

/// What `interleave` lays out before `parts[c]`.
pub open spec fn before<T>(parts: Seq<Seq<T>>, seps: Seq<T>, c: int) -> Seq<T> {
    if c <= 0 {
        seq![]
    } else {
        interleave(parts.subrange(0, c), seps.subrange(0, c - 1)) + seq![seps[c - 1]]
    }
}

/// What `interleave` lays out after `parts[c]`.
pub open spec fn after<T>(parts: Seq<Seq<T>>, seps: Seq<T>, c: int) -> Seq<T> {
    if c + 1 >= parts.len() {
        seq![]
    } else {
        seq![seps[c]] + interleave(
            parts.subrange(c + 1, parts.len() as int),
            seps.subrange(c + 1, seps.len() as int),
        )
    }
}

/// Laying out two runs of parts joined by a separator.
pub(crate) proof fn lemma_interleave_append<T>(p1: Seq<Seq<T>>, s1: Seq<T>, s: T, p2: Seq<Seq<T>>, s2: Seq<T>)
    requires
        p1.len() > 0,
        p2.len() > 0,
        s1.len() + 1 == p1.len(),
        s2.len() + 1 == p2.len(),
    ensures
        interleave(p1 + p2, s1 + seq![s] + s2) == interleave(p1, s1) + seq![s] + interleave(p2, s2),
    decreases p1.len(),
{
    let p = p1 + p2;
    let q = s1 + seq![s] + s2;
    if p1.len() == 1 {
        assert(p.drop_first() =~= p2);
        assert(q.drop_first() =~= s2);
        assert(p[0] == p1[0]);
        if p2.len() == 1 {
            assert(interleave(p2, s2) == p2[0]);
        }
    } else {
        assert(p.drop_first() =~= p1.drop_first() + p2);
        assert(q.drop_first() =~= s1.drop_first() + seq![s] + s2);
        lemma_interleave_append(p1.drop_first(), s1.drop_first(), s, p2, s2);
        assert(p[0] == p1[0]);
        assert(q[0] == s1[0]);
    }
}

/// `interleave` split around one of its parts.
pub(crate) proof fn lemma_interleave_split<T>(parts: Seq<Seq<T>>, seps: Seq<T>, c: int)
    requires
        seps.len() + 1 == parts.len(),
        0 <= c < parts.len(),
    ensures
        interleave(parts, seps) == before(parts, seps, c) + parts[c] + after(parts, seps, c),
{
    let n = parts.len() as int;
    let mid = seq![parts[c]];
    if c > 0 {
        let rest = parts.subrange(c, n);
        let rseps = seps.subrange(c, n - 1);
        assert(parts =~= parts.subrange(0, c) + rest);
        assert(seps =~= seps.subrange(0, c - 1) + seq![seps[c - 1]] + rseps);
        lemma_interleave_append(parts.subrange(0, c), seps.subrange(0, c - 1), seps[c - 1], rest, rseps);
        lemma_interleave_head(rest, rseps);
        if c + 1 < n {
            assert(rest.drop_first() =~= parts.subrange(c + 1, n));
            assert(rseps.drop_first() =~= seps.subrange(c + 1, n - 1));
        }
    } else {
        lemma_interleave_head(parts, seps);
        if 1 < n {
            assert(parts.drop_first() =~= parts.subrange(1, n));
            assert(seps.drop_first() =~= seps.subrange(1, n - 1));
        }
    }
}

/// One step of `interleave`.
pub(crate) proof fn lemma_interleave_head<T>(parts: Seq<Seq<T>>, seps: Seq<T>)
    requires
        seps.len() + 1 == parts.len(),
    ensures
        parts.len() == 1 ==> interleave(parts, seps) == parts[0],
        parts.len() > 1 ==> interleave(parts, seps) == parts[0] + seq![seps[0]] + interleave(
            parts.drop_first(),
            seps.drop_first(),
        ),
{
}

/// Replacing one part leaves what stands around it as it was.
pub(crate) proof fn lemma_interleave_update<T>(parts: Seq<Seq<T>>, seps: Seq<T>, c: int, m: Seq<T>)
    requires
        seps.len() + 1 == parts.len(),
        0 <= c < parts.len(),
    ensures
        interleave(parts.update(c, m), seps) == before(parts, seps, c) + m + after(parts, seps, c),
{
    let p2 = parts.update(c, m);
    lemma_interleave_split(p2, seps, c);
    assert(p2.subrange(0, c) =~= parts.subrange(0, c));
    assert(p2.subrange(c + 1, p2.len() as int) =~= parts.subrange(c + 1, parts.len() as int));
}

/// Replacing one separator: the layout changes at that one place.
pub(crate) proof fn lemma_interleave_update_sep<T>(parts: Seq<Seq<T>>, seps: Seq<T>, c: int, x: T)
    requires
        seps.len() + 1 == parts.len(),
        0 <= c < seps.len(),
    ensures
        before(parts, seps, c + 1).len() > 0,
        before(parts, seps, c + 1)[before(parts, seps, c + 1).len() - 1] == seps[c],
        interleave(parts, seps.update(c, x)) == interleave(parts, seps).update(
            before(parts, seps, c + 1).len() - 1,
            x,
        ),
{
    let s2 = seps.update(c, x);
    lemma_interleave_split(parts, seps, c + 1);
    lemma_interleave_split(parts, s2, c + 1);
    assert(s2.subrange(0, c) =~= seps.subrange(0, c));
    if c + 2 <= seps.len() {
        assert(s2.subrange(c + 2, s2.len() as int) =~= seps.subrange(c + 2, seps.len() as int));
        assert(s2[c + 1] == seps[c + 1]);
    }
    assert(after(parts, s2, c + 1) == after(parts, seps, c + 1));
    let a = before(parts, seps, c + 1);
    assert(interleave(parts, s2) =~= interleave(parts, seps).update(a.len() - 1, x));
}

/// A part split in two around a new separator.
pub(crate) proof fn lemma_interleave_absorb<T>(
    parts: Seq<Seq<T>>,
    seps: Seq<T>,
    c: int,
    l: Seq<T>,
    m: T,
    r: Seq<T>,
)
    requires
        seps.len() + 1 == parts.len(),
        0 <= c < parts.len(),
    ensures
        interleave(parts.update(c, l).insert(c + 1, r), seps.insert(c, m)) == before(parts, seps, c)
            + (l + seq![m] + r) + after(parts, seps, c),
{
    let n = parts.len() as int;
    let p2 = parts.update(c, l).insert(c + 1, r);
    let s2 = seps.insert(c, m);
    lemma_interleave_split(p2, s2, c);
    assert(p2.subrange(0, c) =~= parts.subrange(0, c));
    if c > 0 {
        assert(s2.subrange(0, c - 1) =~= seps.subrange(0, c - 1));
        assert(s2[c - 1] == seps[c - 1]);
    }
    let rest = p2.subrange(c + 1, n + 1);
    let rseps = s2.subrange(c + 1, n);
    lemma_interleave_head(rest, rseps);
    if c + 1 < n {
        assert(rest.drop_first() =~= parts.subrange(c + 1, n));
        assert(rseps.drop_first() =~= seps.subrange(c + 1, n - 1));
        assert(rseps[0] == seps[c]);
    }
    assert(rest[0] == r);
    assert(before(p2, s2, c) + p2[c] + after(p2, s2, c) =~= before(parts, seps, c) + (l + seq![m]
        + r) + after(parts, seps, c));
}

} // verus!
