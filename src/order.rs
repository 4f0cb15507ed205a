use vstd::prelude::*;
use crate::config::Sort;
use crate::entry::{Entry, EntryKind};

verus! {

/// How the children of one directory are ordered.
#[derive(Copy, Clone, PartialEq, Eq, Structural, Debug)]
pub struct Order {
    /// Directories before all other entries.
    pub dirsfirst: bool,
    /// The key; `None` keeps the order in which the entries were read.
    pub key: Option<Sort>,
    /// Reverse the whole order, the directories-first rule included. It has
    /// no effect without a key.
    pub reverse: bool,
}

/// `a` comes before `b` in the lexicographic order of their characters,
/// which is the byte order of their UTF-8 encodings.
pub open spec fn name_lt(a: Seq<char>, b: Seq<char>) -> bool
    decreases a.len(),
{
    if a.len() == 0 {
        b.len() > 0
    } else if b.len() == 0 {
        false
    } else if a[0] != b[0] {
        a[0] < b[0]
    } else {
        name_lt(a.drop_first(), b.drop_first())
    }
}

proof fn lemma_name_irreflexive(a: Seq<char>)
    ensures
        !name_lt(a, a),
    decreases a.len(),
{
    if a.len() > 0 {
        lemma_name_irreflexive(a.drop_first());
    }
}

proof fn lemma_name_transitive(a: Seq<char>, b: Seq<char>, c: Seq<char>)
    requires
        name_lt(a, b),
        name_lt(b, c),
    ensures
        name_lt(a, c),
    decreases a.len(),
{
    if a.len() > 0 && b.len() > 0 && c.len() > 0 && a[0] == b[0] && b[0] == c[0] {
        lemma_name_transitive(a.drop_first(), b.drop_first(), c.drop_first());
    }
}

proof fn lemma_name_total(a: Seq<char>, b: Seq<char>)
    requires
        a != b,
    ensures
        name_lt(a, b) || name_lt(b, a),
    decreases a.len(),
{
    if a.len() > 0 && b.len() > 0 && a[0] == b[0] {
        if a.drop_first() == b.drop_first() {
            assert(a =~= seq![a[0]] + a.drop_first());
            assert(b =~= seq![b[0]] + b.drop_first());
        }
        lemma_name_total(a.drop_first(), b.drop_first());
    } else if a.len() == 0 && b.len() == 0 {
        assert(a =~= b);
    }
}

/// The size of `e` as a sort key; an unreadable size sorts first.
pub open spec fn size_key(e: Entry) -> int {
    match e.size {
        Some(s) => s as int,
        None => -1,
    }
}

/// `x` comes strictly before `y` under the key `k`.
pub open spec fn key_lt(k: Option<Sort>, x: Entry, y: Entry) -> bool {
    match k {
        Some(Sort::Name) => name_lt(x.name@, y.name@),
        Some(Sort::Size) => size_key(x) < size_key(y),
        Some(Sort::Mtime) => x.modified < y.modified,
        Some(Sort::Ctime) => x.changed < y.changed,
        _ => false,
    }
}

/// Entry `i` of `es` comes before entry `j` in ascending order: directories
/// first if asked for, then by the key, and entries that the key does not
/// tell apart in the order they were read.
pub open spec fn ascends(es: Seq<Entry>, o: Order, i: int, j: int) -> bool {
    let x = es[i];
    let y = es[j];
    if o.dirsfirst && x.is_dir() && !y.is_dir() {
        true
    } else if o.dirsfirst && !x.is_dir() && y.is_dir() {
        false
    } else if key_lt(o.key, x, y) {
        true
    } else if key_lt(o.key, y, x) {
        false
    } else {
        i < j
    }
}

/// Entry `i` of `es` is shown before entry `j` under `o`.
pub open spec fn before(es: Seq<Entry>, o: Order, i: int, j: int) -> bool {
    if o.reverse && o.key.is_some() {
        ascends(es, o, j, i)
    } else {
        ascends(es, o, i, j)
    }
}

/// `r` lists each index of `c`, and only those, in the order `o`.
pub open spec fn is_ordering(es: Seq<Entry>, o: Order, c: Seq<usize>, r: Seq<usize>) -> bool {
    &&& r.len() == c.len()
    &&& forall|x: usize| #[trigger] r.contains(x) <==> c.contains(x)
    &&& forall|p: int, q: int| 0 <= p < q < r.len() ==> before(es, o, #[trigger] r[p] as int, #[trigger] r[q] as int)
}

proof fn lemma_key_facts(k: Option<Sort>, x: Entry, y: Entry, z: Entry)
    ensures
        !key_lt(k, x, x),
        key_lt(k, x, y) && key_lt(k, y, z) ==> key_lt(k, x, z),
        !key_lt(k, x, y) && !key_lt(k, y, x) && !key_lt(k, y, z) && !key_lt(k, z, y) ==> !key_lt(k, x, z) && !key_lt(k, z, x),
        !key_lt(k, x, y) && !key_lt(k, y, x) && key_lt(k, y, z) ==> key_lt(k, x, z),
        key_lt(k, x, y) && !key_lt(k, y, z) && !key_lt(k, z, y) ==> key_lt(k, x, z),
{
    if k == Some(Sort::Name) {
        let (a, b, c) = (x.name@, y.name@, z.name@);
        lemma_name_irreflexive(a);
        if a != b { lemma_name_total(a, b); }
        if b != c { lemma_name_total(b, c); }
        if a != c { lemma_name_total(a, c); }
        if name_lt(a, b) && name_lt(b, c) { lemma_name_transitive(a, b, c); }
        if name_lt(c, b) && name_lt(b, a) { lemma_name_transitive(c, b, a); }
        if name_lt(a, c) && name_lt(c, b) { lemma_name_transitive(a, c, b); }
        if name_lt(b, a) && name_lt(a, c) { lemma_name_transitive(b, a, c); }
    }
}

/// `ascends` is a strict total order on the indices of `es`.
proof fn lemma_ascends_order(es: Seq<Entry>, o: Order, i: int, j: int, l: int)
    requires
        0 <= i < es.len(),
        0 <= j < es.len(),
        0 <= l < es.len(),
    ensures
        !ascends(es, o, i, i),
        i != j ==> ascends(es, o, i, j) || ascends(es, o, j, i),
        ascends(es, o, i, j) && ascends(es, o, j, l) ==> ascends(es, o, i, l),
{
    let (x, y, z) = (es[i], es[j], es[l]);
    lemma_key_facts(o.key, x, y, z);
    lemma_key_facts(o.key, y, x, z);
    lemma_key_facts(o.key, z, y, x);
    lemma_key_facts(o.key, x, z, y);
    lemma_key_facts(o.key, y, z, x);
    lemma_key_facts(o.key, z, x, y);
}

/// `before` is a strict total order on the indices of `es`.
pub proof fn lemma_before_order(es: Seq<Entry>, o: Order, i: int, j: int, l: int)
    requires
        0 <= i < es.len(),
        0 <= j < es.len(),
        0 <= l < es.len(),
    ensures
        !before(es, o, i, i),
        i != j ==> before(es, o, i, j) || before(es, o, j, i),
        before(es, o, i, j) && before(es, o, j, l) ==> before(es, o, i, l),
{
    lemma_ascends_order(es, o, i, j, l);
    lemma_ascends_order(es, o, l, j, i);
}

/// Whether `a` comes before `b` in the byte order of their encodings.
pub fn name_less(a: &str, b: &str) -> (r: bool)
    ensures
        r == name_lt(a@, b@),
{
    let an = a.unicode_len();
    let bn = b.unicode_len();
    let mut k: usize = 0;
    assert(a@.skip(0) =~= a@);
    assert(b@.skip(0) =~= b@);
    while k < an && k < bn && a.get_char(k) == b.get_char(k)
        invariant
            an == a@.len(),
            bn == b@.len(),
            k <= an,
            k <= bn,
            name_lt(a@, b@) == name_lt(a@.skip(k as int), b@.skip(k as int)),
        decreases an - k,
    {
        assert(a@.skip(k as int).drop_first() =~= a@.skip(k + 1));
        assert(b@.skip(k as int).drop_first() =~= b@.skip(k + 1));
        k = k + 1;
    }
    if k < an && k < bn {
        assert(a@.skip(k as int)[0] == a@[k as int]);
        assert(b@.skip(k as int)[0] == b@[k as int]);
        a.get_char(k) < b.get_char(k)
    } else {
        k == an && k < bn
    }
}

fn key_less(k: Option<Sort>, x: &Entry, y: &Entry) -> (r: bool)
    ensures
        r == key_lt(k, *x, *y),
{
    match k {
        Some(Sort::Name) => name_less(x.name.as_str(), y.name.as_str()),
        Some(Sort::Size) => match (x.size, y.size) {
            (Some(a), Some(b)) => a < b,
            (None, Some(_)) => true,
            _ => false,
        },
        Some(Sort::Mtime) => x.modified < y.modified,
        Some(Sort::Ctime) => x.changed < y.changed,
        _ => false,
    }
}

/// Whether entry `i` of `es` is shown before entry `j` under `o`.
pub fn precedes(es: &Vec<Entry>, o: Order, i: usize, j: usize) -> (r: bool)
    requires
        i < es@.len(),
        j < es@.len(),
    ensures
        r == before(es@, o, i as int, j as int),
{
    let (a, b) = if o.reverse && o.key.is_some() { (j, i) } else { (i, j) };
    let x = &es[a];
    let y = &es[b];
    let xd = matches!(x.kind, EntryKind::Dir);
    let yd = matches!(y.kind, EntryKind::Dir);
    if o.dirsfirst && xd && !yd {
        true
    } else if o.dirsfirst && !xd && yd {
        false
    } else if key_less(o.key, x, y) {
        true
    } else if key_less(o.key, y, x) {
        false
    } else {
        a < b
    }
}

/// Every index in `s` names an entry of `es`.
pub open spec fn indexes(es: Seq<Entry>, s: Seq<usize>) -> bool {
    forall|k: int| 0 <= k < s.len() ==> #[trigger] s[k] < es.len()
}

/// `s` is in the order `o`.
pub open spec fn sorted_by(es: Seq<Entry>, o: Order, s: Seq<usize>) -> bool {
    forall|p: int, q: int| 0 <= p < q < s.len() ==> before(es, o, #[trigger] s[p] as int, #[trigger] s[q] as int)
}

/// Two sequences that hold the same entries, each in the order `o`, are
/// the same sequence.
pub proof fn lemma_ordering_unique(es: Seq<Entry>, o: Order, s: Seq<usize>, t: Seq<usize>)
    requires
        indexes(es, s),
        indexes(es, t),
        sorted_by(es, o, s),
        sorted_by(es, o, t),
        forall|x: usize| #[trigger] s.contains(x) <==> t.contains(x),
    ensures
        s == t,
    decreases s.len(),
{
    if s.len() == 0 {
        if t.len() > 0 {
            assert(t.contains(t[0]));
            assert(s.contains(t[0]));
        }
        assert(s =~= t);
    } else {
        assert(s.contains(s[0]));
        assert(t.contains(s[0]));
        let j = choose|j: int| 0 <= j < t.len() && #[trigger] t[j] == s[0];
        assert(t.contains(t[0]));
        assert(s.contains(t[0]));
        let i = choose|i: int| 0 <= i < s.len() && #[trigger] s[i] == t[0];
        lemma_before_order(es, o, t[0] as int, s[0] as int, t[0] as int);
        if j > 0 {
            assert(before(es, o, t[0] as int, t[j] as int));
            assert(i > 0);
            assert(before(es, o, s[0] as int, s[i] as int));
        }
        assert(s[0] == t[0]);
        let (s1, t1) = (s.drop_first(), t.drop_first());
        assert forall|x: usize| #[trigger] s1.contains(x) <==> t1.contains(x) by {
            if s1.contains(x) {
                let k = choose|k: int| 0 <= k < s1.len() && #[trigger] s1[k] == x;
                assert(s[k + 1] == x);
                assert(before(es, o, s[0] as int, s[k + 1] as int));
                lemma_before_order(es, o, x as int, x as int, x as int);
                assert(s.contains(x));
                assert(t.contains(x));
                let k2 = choose|k2: int| 0 <= k2 < t.len() && #[trigger] t[k2] == x;
                assert(k2 != 0);
                assert(t1[k2 - 1] == x);
            }
            if t1.contains(x) {
                let k = choose|k: int| 0 <= k < t1.len() && #[trigger] t1[k] == x;
                assert(t[k + 1] == x);
                assert(before(es, o, t[0] as int, t[k + 1] as int));
                lemma_before_order(es, o, x as int, x as int, x as int);
                assert(t.contains(x));
                assert(s.contains(x));
                let k2 = choose|k2: int| 0 <= k2 < s.len() && #[trigger] s[k2] == x;
                assert(k2 != 0);
                assert(s1[k2 - 1] == x);
            }
        }
        assert forall|p: int, q: int| 0 <= p < q < s1.len() implies before(es, o, #[trigger] s1[p] as int, #[trigger] s1[q] as int) by {
            assert(s1[p] == s[p + 1] && s1[q] == s[q + 1]);
        }
        assert forall|p: int, q: int| 0 <= p < q < t1.len() implies before(es, o, #[trigger] t1[p] as int, #[trigger] t1[q] as int) by {
            assert(t1[p] == t[p + 1] && t1[q] == t[q + 1]);
        }
        assert forall|k: int| 0 <= k < s1.len() implies #[trigger] s1[k] < es.len() by {
            assert(s1[k] == s[k + 1]);
        }
        assert forall|k: int| 0 <= k < t1.len() implies #[trigger] t1[k] < es.len() by {
            assert(t1[k] == t[k + 1]);
        }
        lemma_ordering_unique(es, o, s1, t1);
        assert(s =~= seq![s[0]] + s1);
        assert(t =~= seq![t[0]] + t1);
    }
}

/// Reversing a keyed order lists the same entries in exactly the opposite
/// order: whatever `fwd` and `rev` satisfy the contract of
/// [`sort_indices`] without and with `reverse`, `rev` is `fwd` backwards.
pub proof fn lemma_reverse_order(es: Seq<Entry>, o: Order, c: Seq<usize>, fwd: Seq<usize>, rev: Seq<usize>)
    requires
        o.key.is_some(),
        indexes(es, c),
        is_ordering(es, Order { reverse: false, ..o }, c, fwd),
        is_ordering(es, Order { reverse: true, ..o }, c, rev),
    ensures
        rev == fwd.reverse(),
{
    let of = Order { reverse: false, ..o };
    let orv = Order { reverse: true, ..o };
    let n = fwd.len();
    let fr = fwd.reverse();
    assert forall|x: usize| #[trigger] fwd.contains(x) ==> x < es.len() by {
        if fwd.contains(x) {
            assert(c.contains(x));
            let k = choose|k: int| 0 <= k < c.len() && #[trigger] c[k] == x;
        }
    }
    assert forall|x: usize| #[trigger] rev.contains(x) ==> x < es.len() by {
        if rev.contains(x) {
            assert(c.contains(x));
            let k = choose|k: int| 0 <= k < c.len() && #[trigger] c[k] == x;
        }
    }
    assert forall|k: int| 0 <= k < rev.len() implies #[trigger] rev[k] < es.len() by {
        assert(rev.contains(rev[k]));
    }
    assert forall|k: int| 0 <= k < fr.len() implies #[trigger] fr[k] < es.len() by {
        assert(fr[k] == fwd[n - 1 - k]);
        assert(fwd.contains(fwd[n - 1 - k]));
    }
    assert forall|p: int, q: int| 0 <= p < q < fr.len() implies before(es, orv, #[trigger] fr[p] as int, #[trigger] fr[q] as int) by {
        assert(fr[p] == fwd[n - 1 - p] && fr[q] == fwd[n - 1 - q]);
        assert(before(es, of, fwd[n - 1 - q] as int, fwd[n - 1 - p] as int));
    }
    assert forall|x: usize| #[trigger] fr.contains(x) <==> rev.contains(x) by {
        if fr.contains(x) {
            let k = choose|k: int| 0 <= k < fr.len() && #[trigger] fr[k] == x;
            assert(fwd[n - 1 - k] == x);
            assert(fwd.contains(x));
        }
        if rev.contains(x) {
            assert(fwd.contains(x));
            let k = choose|k: int| 0 <= k < fwd.len() && #[trigger] fwd[k] == x;
            assert(fr[n - 1 - k] == x);
        }
    }
    lemma_ordering_unique(es, orv, rev, fr);
}

/// The indices `c` of entries of `es`, in the order `o`.
pub fn sort_indices(es: &Vec<Entry>, o: Order, c: &Vec<usize>) -> (r: Vec<usize>)
    requires
        indexes(es@, c@),
        c@.no_duplicates(),
    ensures
        is_ordering(es@, o, c@, r@),
{
    let mut r: Vec<usize> = Vec::new();
    let mut n: usize = 0;
    while n < c.len()
        invariant
            n <= c@.len(),
            r@.len() == n,
            indexes(es@, c@),
            c@.no_duplicates(),
            indexes(es@, r@),
            forall|x: usize| #[trigger] r@.contains(x) <==> c@.subrange(0, n as int).contains(x),
            sorted_by(es@, o, r@),
        decreases c@.len() - n,
    {
        let x = c[n];
        assert(!r@.contains(x)) by {
            if r@.contains(x) {
                let k = choose|k: int| 0 <= k < n && #[trigger] c@.subrange(0, n as int)[k] == x;
                assert(c@[k] == c@[n as int]);
            }
        }
        let mut p: usize = 0;
        while p < r.len() && !precedes(es, o, x, r[p])
            invariant
                p <= r@.len(),
                x < es@.len(),
                indexes(es@, r@),
                !r@.contains(x),
                forall|m: int| 0 <= m < p ==> before(es@, o, #[trigger] r@[m] as int, x as int),
            decreases r@.len() - p,
        {
            proof {
                assert(r@.contains(r@[p as int]));
                lemma_before_order(es@, o, x as int, r@[p as int] as int, x as int);
            }
            p = p + 1;
        }
        let ghost old_r = r@;
        proof {
            assert forall|m: int| p <= m < old_r.len() implies before(es@, o, x as int, #[trigger] old_r[m] as int) by {
                if m > p {
                    lemma_before_order(es@, o, x as int, old_r[p as int] as int, old_r[m] as int);
                }
            }
        }
        r.insert(p, x);
        proof {
            assert(r@ =~= old_r.insert(p as int, x));
            assert forall|a: int, b: int| 0 <= a < b < r@.len() implies before(es@, o, #[trigger] r@[a] as int, #[trigger] r@[b] as int) by {
                if a < p && b == p {
                } else if a < p && b > p {
                    assert(r@[b] == old_r[b - 1]);
                } else if a == p {
                    assert(r@[b] == old_r[b - 1]);
                } else if a > p {
                    assert(r@[a] == old_r[a - 1]);
                    assert(r@[b] == old_r[b - 1]);
                }
            }
            assert forall|y: usize| #[trigger] r@.contains(y) <==> c@.subrange(0, n + 1).contains(y) by {
                if r@.contains(y) {
                    let k = choose|k: int| 0 <= k < r@.len() && #[trigger] r@[k] == y;
                    if k < p {
                        assert(old_r.contains(y));
                    } else if k > p {
                        assert(old_r[k - 1] == y);
                        assert(old_r.contains(y));
                    }
                    if y != x {
                        let k2 = choose|k2: int| 0 <= k2 < n && #[trigger] c@.subrange(0, n as int)[k2] == y;
                        assert(c@.subrange(0, n + 1)[k2] == y);
                    } else {
                        assert(c@.subrange(0, n + 1)[n as int] == y);
                    }
                }
                if c@.subrange(0, n + 1).contains(y) {
                    let k = choose|k: int| 0 <= k < n + 1 && #[trigger] c@.subrange(0, n + 1)[k] == y;
                    if k < n {
                        assert(c@.subrange(0, n as int)[k] == y);
                        assert(old_r.contains(y));
                        let k2 = choose|k2: int| 0 <= k2 < old_r.len() && #[trigger] old_r[k2] == y;
                        if k2 < p {
                            assert(r@[k2] == y);
                        } else {
                            assert(r@[k2 + 1] == y);
                        }
                    } else {
                        assert(r@[p as int] == y);
                    }
                }
            }
            assert forall|k: int| 0 <= k < r@.len() implies #[trigger] r@[k] < es@.len() by {
                if k < p {
                } else if k > p {
                    assert(r@[k] == old_r[k - 1]);
                }
            }
        }
        n = n + 1;
    }
    assert(c@.subrange(0, n as int) =~= c@);
    r
}

} // verus!
