use vstd::prelude::*;

verus! {

/// Lexicographic byte order: `a` sorts strictly before `b`.
pub open spec fn lex_lt(a: Seq<u8>, b: Seq<u8>) -> bool
    decreases a.len(),
{
    if a.len() == 0 {
        b.len() > 0
    } else if b.len() == 0 {
        false
    } else if a[0] != b[0] {
        a[0] < b[0]
    } else {
        lex_lt(a.drop_first(), b.drop_first())
    }
}

pub proof fn lemma_lex_lt_irreflexive(a: Seq<u8>)
    ensures
        !lex_lt(a, a),
    decreases a.len(),
{
    if a.len() > 0 {
        lemma_lex_lt_irreflexive(a.drop_first());
    }
}

pub proof fn lemma_lex_lt_transitive(a: Seq<u8>, b: Seq<u8>, c: Seq<u8>)
    requires
        lex_lt(a, b),
        lex_lt(b, c),
    ensures
        lex_lt(a, c),
    decreases a.len(),
{
    if a.len() > 0 && b.len() > 0 && c.len() > 0 && a[0] == b[0] && b[0] == c[0] {
        lemma_lex_lt_transitive(a.drop_first(), b.drop_first(), c.drop_first());
    }
}

pub proof fn lemma_lex_lt_total(a: Seq<u8>, b: Seq<u8>)
    ensures
        lex_lt(a, b) || lex_lt(b, a) || a == b,
    decreases a.len(),
{
    if a.len() > 0 && b.len() > 0 && a[0] == b[0] {
        lemma_lex_lt_total(a.drop_first(), b.drop_first());
        if a.drop_first() == b.drop_first() {
            assert(a =~= seq![a[0]] + a.drop_first());
            assert(b =~= seq![b[0]] + b.drop_first());
        }
    } else if a.len() == 0 && b.len() == 0 {
        assert(a =~= b);
    }
}

pub proof fn lemma_lex_lt_asymmetric(a: Seq<u8>, b: Seq<u8>)
    requires
        lex_lt(a, b),
    ensures
        !lex_lt(b, a),
{
    if lex_lt(b, a) {
        lemma_lex_lt_transitive(a, b, a);
        lemma_lex_lt_irreflexive(a);
    }
}

/// Three-way comparison of two byte strings: -1, 0 or 1.
pub fn compare_bytes(a: &[u8], b: &[u8]) -> (r: i8)
    ensures
        r == -1 || r == 0 || r == 1,
        r == -1 <==> lex_lt(a@, b@),
        r == 0 <==> a@ == b@,
        r == 1 <==> lex_lt(b@, a@),
{
    let mut i: usize = 0;
    proof {
        assert(a@.skip(0) =~= a@);
        assert(b@.skip(0) =~= b@);
    }
    while i < a.len() && i < b.len() && a[i] == b[i]
        invariant
            i <= a@.len(),
            i <= b@.len(),
            a@.take(i as int) == b@.take(i as int),
            lex_lt(a@, b@) == lex_lt(a@.skip(i as int), b@.skip(i as int)),
            lex_lt(b@, a@) == lex_lt(b@.skip(i as int), a@.skip(i as int)),
        decreases a@.len() - i,
    {
        proof {
            assert(a@.skip(i as int).drop_first() =~= a@.skip(i + 1));
            assert(b@.skip(i as int).drop_first() =~= b@.skip(i + 1));
            assert(a@.take(i + 1) =~= a@.take(i as int).push(a@[i as int]));
            assert(b@.take(i + 1) =~= b@.take(i as int).push(b@[i as int]));
        }
        i = i + 1;
    }
    proof {
        lemma_lex_lt_total(a@, b@);
        lemma_lex_lt_irreflexive(a@);
        if lex_lt(a@, b@) {
            lemma_lex_lt_asymmetric(a@, b@);
        }
    }
    if i < a.len() && i < b.len() {
        if a[i] < b[i] {
            -1
        } else {
            1
        }
    } else if i < b.len() {
        proof {
            assert(a@ =~= a@.take(i as int));
            assert(a@ != b@);
        }
        -1
    } else if i < a.len() {
        proof {
            assert(b@ =~= b@.take(i as int));
            assert(a@ != b@);
        }
        1
    } else {
        proof {
            assert(a@ =~= a@.take(i as int));
            assert(b@ =~= b@.take(i as int));
        }
        0
    }
}

/// Byte-wise equality of two byte strings.
pub fn bytes_eq(a: &[u8], b: &[u8]) -> (r: bool)
    ensures
        r == (a@ == b@),
{
    compare_bytes(a, b) == 0
}

/// An owned copy of `src[start..end]`.
pub fn copy_range(src: &[u8], start: usize, end: usize) -> (r: Vec<u8>)
    requires
        start <= end <= src@.len(),
    ensures
        r@ == src@.subrange(start as int, end as int),
{
    let mut r: Vec<u8> = Vec::new();
    let mut i: usize = start;
    while i < end
        invariant
            start <= i <= end <= src@.len(),
            r@ == src@.subrange(start as int, i as int),
        decreases end - i,
    {
        r.push(src[i]);
        proof {
            assert(src@.subrange(start as int, i + 1) =~= src@.subrange(start as int, i as int).push(
                src@[i as int],
            ));
        }
        i = i + 1;
    }
    r
}

/// Appends `src[start..end]` to `out`.
pub fn push_range(out: &mut Vec<u8>, src: &[u8], start: usize, end: usize)
    requires
        start <= end <= src@.len(),
    ensures
        final(out)@ == old(out)@ + src@.subrange(start as int, end as int),
{
    let mut i: usize = start;
    while i < end
        invariant
            start <= i <= end <= src@.len(),
            out@ == old(out)@ + src@.subrange(start as int, i as int),
        decreases end - i,
    {
        out.push(src[i]);
        proof {
            assert(src@.subrange(start as int, i + 1) =~= src@.subrange(start as int, i as int).push(
                src@[i as int],
            ));
            assert(old(out)@ + src@.subrange(start as int, i + 1) =~= (old(out)@ + src@.subrange(
                start as int,
                i as int,
            )).push(src@[i as int]));
        }
        i = i + 1;
    }
}

/// An owned copy of a whole byte string.
pub fn copy_bytes(src: &[u8]) -> (r: Vec<u8>)
    ensures
        r@ == src@,
{
    let r = copy_range(src, 0, src.len());
    proof {
        assert(src@.subrange(0, src@.len() as int) =~= src@);
    }
    r
}

} // verus!
