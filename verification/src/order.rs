use vstd::prelude::*;

use crate::data::str_views;

verus! {

/// Strict lexicographic order on character sequences, by code point.
///
/// This is the order in which the watch set is kept; it agrees with the
/// byte-wise ordering of the UTF-8 encodings of the two strings.
pub open spec fn lex_lt(a: Seq<char>, b: Seq<char>) -> bool
    decreases a.len(),
{
    if b.len() == 0 {
        false
    } else if a.len() == 0 {
        true
    } else if (a[0] as int) < (b[0] as int) {
        true
    } else if (a[0] as int) > (b[0] as int) {
        false
    } else {
        lex_lt(a.drop_first(), b.drop_first())
    }
}

/// Nothing is lexicographically below itself.
pub proof fn lemma_lex_lt_irrefl(a: Seq<char>)
    ensures
        !lex_lt(a, a),
    decreases a.len(),
{
    if a.len() > 0 {
        lemma_lex_lt_irrefl(a.drop_first());
    }
}

/// Distinct sequences are ordered one way or the other.
pub proof fn lemma_lex_lt_connected(a: Seq<char>, b: Seq<char>)
    ensures
        a != b ==> lex_lt(a, b) || lex_lt(b, a),
    decreases a.len(),
{
    if a.len() == 0 && b.len() == 0 {
        assert(a =~= b);
    }
    if a.len() > 0 && b.len() > 0 && (a[0] as int) == (b[0] as int) {
        assert(a[0] == b[0]);
        lemma_lex_lt_connected(a.drop_first(), b.drop_first());
        if a.drop_first() == b.drop_first() {
            assert(a =~= b) by {
                assert forall|k: int| 0 <= k < a.len() implies a[k] == b[k] by {
                    if k > 0 {
                        assert(a.drop_first()[k - 1] == b.drop_first()[k - 1]);
                    }
                }
            }
        }
    }
}

/// Lexicographic order is transitive.
pub proof fn lemma_lex_lt_trans(a: Seq<char>, b: Seq<char>, c: Seq<char>)
    requires
        lex_lt(a, b),
        lex_lt(b, c),
    ensures
        lex_lt(a, c),
    decreases a.len(),
{
    if a.len() > 0 && b.len() > 0 && c.len() > 0 {
        if (a[0] as int) == (b[0] as int) && (b[0] as int) == (c[0] as int) {
            lemma_lex_lt_trans(a.drop_first(), b.drop_first(), c.drop_first());
        }
    }
}

/// A sequence in strictly increasing lexicographic order (hence without
/// duplicates).
pub open spec fn strictly_sorted(s: Seq<Seq<char>>) -> bool {
    forall|i: int, j: int| 0 <= i < j < s.len() ==> lex_lt(#[trigger] s[i], #[trigger] s[j])
}

/// A strictly sorted sequence has no duplicates.
pub proof fn lemma_strictly_sorted_no_duplicates(s: Seq<Seq<char>>)
    requires
        strictly_sorted(s),
    ensures
        s.no_duplicates(),
{
    assert forall|i: int, j: int|
        0 <= i < s.len() && 0 <= j < s.len() && i != j implies s[i] != s[j] by {
        if i < j {
            lemma_lex_lt_irrefl(s[i]);
        } else {
            lemma_lex_lt_irrefl(s[j]);
        }
    }
}

/// A strictly sorted sequence is determined by the set of its entries.
pub proof fn lemma_strictly_sorted_unique(s: Seq<Seq<char>>, t: Seq<Seq<char>>)
    requires
        strictly_sorted(s),
        strictly_sorted(t),
        s.to_set() == t.to_set(),
    ensures
        s == t,
    decreases s.len(),
{
    if s.len() == 0 {
        if t.len() > 0 {
            assert(t.to_set().contains(t[0]));
            assert(s.contains(t[0]));
        }
        assert(s =~= t);
    } else if t.len() == 0 {
        assert(s.to_set().contains(s[0]));
        assert(t.contains(s[0]));
    } else {
        // both heads are the least entries of the same set, so they agree
        assert(s.to_set().contains(t[0]));
        assert(t.to_set().contains(s[0]));
        let i = choose|i: int| 0 <= i < s.len() && s[i] == t[0];
        let j = choose|j: int| 0 <= j < t.len() && t[j] == s[0];
        if s[0] != t[0] {
            assert(i > 0 || j > 0);
            if i > 0 {
                assert(lex_lt(s[0], s[i]));
                assert(lex_lt(s[0], t[0]));
                assert(j > 0);
                assert(lex_lt(t[0], t[j]));
                lemma_lex_lt_trans(s[0], t[0], s[0]);
                lemma_lex_lt_irrefl(s[0]);
            } else {
                assert(s[0] == t[0]);
            }
        }
        let s1 = s.drop_first();
        let t1 = t.drop_first();
        assert(strictly_sorted(s1)) by {
            assert forall|x: int, y: int| 0 <= x < y < s1.len() implies lex_lt(
                #[trigger] s1[x],
                #[trigger] s1[y],
            ) by {
                assert(s1[x] == s[x + 1] && s1[y] == s[y + 1]);
            }
        }
        assert(strictly_sorted(t1)) by {
            assert forall|x: int, y: int| 0 <= x < y < t1.len() implies lex_lt(
                #[trigger] t1[x],
                #[trigger] t1[y],
            ) by {
                assert(t1[x] == t[x + 1] && t1[y] == t[y + 1]);
            }
        }
        assert(s1.to_set() =~= t1.to_set()) by {
            assert forall|x: Seq<char>| s1.to_set().contains(x) implies t1.to_set().contains(
                x,
            ) by {
                let k = choose|k: int| 0 <= k < s1.len() && s1[k] == x;
                assert(s[k + 1] == x);
                assert(lex_lt(s[0], x));
                assert(s.to_set().contains(x));
                assert(t.contains(x));
                let m = choose|m: int| 0 <= m < t.len() && t[m] == x;
                if m == 0 {
                    lemma_lex_lt_irrefl(x);
                }
                assert(t1[m - 1] == x);
            }
            assert forall|x: Seq<char>| t1.to_set().contains(x) implies s1.to_set().contains(
                x,
            ) by {
                let k = choose|k: int| 0 <= k < t1.len() && t1[k] == x;
                assert(t[k + 1] == x);
                assert(lex_lt(t[0], x));
                assert(t.to_set().contains(x));
                assert(s.contains(x));
                let m = choose|m: int| 0 <= m < s.len() && s[m] == x;
                if m == 0 {
                    lemma_lex_lt_irrefl(x);
                }
                assert(s1[m - 1] == x);
            }
        }
        lemma_strictly_sorted_unique(s1, t1);
        assert(s =~= t) by {
            assert forall|k: int| 0 <= k < s.len() implies s[k] == t[k] by {
                if k > 0 {
                    assert(s1[k - 1] == t1[k - 1]);
                }
            }
        }
    }
}

/// Whether `a` orders strictly below `b`.
pub fn str_lt(a: &String, b: &String) -> (r: bool)
    ensures
        r == lex_lt(a@, b@),
{
    let sa = a.as_str();
    let sb = b.as_str();
    let na = sa.unicode_len();
    let nb = sb.unicode_len();
    let mut i: usize = 0;
    proof {
        assert(a@.skip(0) =~= a@);
        assert(b@.skip(0) =~= b@);
    }
    loop
        invariant
            i <= na,
            i <= nb,
            na as int == a@.len(),
            nb as int == b@.len(),
            sa@ == a@,
            sb@ == b@,
            lex_lt(a@, b@) == lex_lt(a@.skip(i as int), b@.skip(i as int)),
        decreases na - i,
    {
        if i >= na {
            proof {
                assert(a@.skip(i as int) =~= Seq::<char>::empty());
            }
            return nb > i;
        }
        if i >= nb {
            proof {
                assert(b@.skip(i as int) =~= Seq::<char>::empty());
            }
            return false;
        }
        let ca = sa.get_char(i);
        let cb = sb.get_char(i);
        proof {
            assert(a@.skip(i as int)[0] == a@[i as int]);
            assert(b@.skip(i as int)[0] == b@[i as int]);
            assert((ca as u32) as int == ca as int);
            assert((cb as u32) as int == cb as int);
        }
        if (ca as u32) < (cb as u32) {
            return true;
        }
        if (ca as u32) > (cb as u32) {
            return false;
        }
        proof {
            assert(a@.skip(i as int).drop_first() =~= a@.skip(i + 1));
            assert(b@.skip(i as int).drop_first() =~= b@.skip(i + 1));
        }
        i = i + 1;
    }
}

/// Insert `x` into the strictly sorted `v`, keeping it sorted and
/// duplicate-free; a no-op when `x` is already present.
pub(crate) fn insert_sorted_unique(v: &mut Vec<String>, x: &String)
    requires
        strictly_sorted(str_views(old(v)@)),
    ensures
        strictly_sorted(str_views(final(v)@)),
        str_views(final(v)@).to_set() == str_views(old(v)@).to_set().insert(x@),
{
    let ghost vv = str_views(v@);
    let n = v.len();
    let mut i: usize = 0;
    while i < n && str_lt(&v[i], x)
        invariant
            n == v@.len(),
            i <= n,
            v@ == old(v)@,
            vv == str_views(v@),
            forall|j: int| 0 <= j < i ==> lex_lt(#[trigger] vv[j], x@),
        decreases n - i,
    {
        proof {
            assert(vv[i as int] == v@[i as int]@);
        }
        i = i + 1;
    }
    if i < n && v[i] == *x {
        // already present: the set gains nothing
        proof {
            assert(vv[i as int] == x@);
            assert(vv.to_set().contains(x@));
            assert(vv.to_set() =~= vv.to_set().insert(x@));
        }
        return ;
    }
    proof {
        if i < n {
            assert(vv[i as int] == v@[i as int]@);
            assert(!lex_lt(vv[i as int], x@) && vv[i as int] != x@);
            lemma_lex_lt_connected(vv[i as int], x@);
            assert(lex_lt(x@, vv[i as int]));
        }
    }
    v.insert(i, x.clone());
    proof {
        let nv = str_views(v@);
        vv.insert_ensures(i as int, x@);
        assert(v@ == old(v)@.insert(i as int, *x));
        assert(nv.len() == vv.len() + 1);
        assert forall|k: int| 0 <= k < nv.len() implies nv[k] == vv.insert(i as int, x@)[k] by {
            assert(nv[k] == v@[k]@);
            if k < i {
                assert(v@[k] == old(v)@[k]);
            } else if k == i {
                assert(v@[k] == *x);
            } else {
                assert(v@[k] == old(v)@[k - 1]);
                assert(vv.insert(i as int, x@)[k] == vv[k - 1]);
            }
        }
        let ins = vv.insert(i as int, x@);
        assert(nv =~= ins);
        // sortedness of the result
        assert forall|p: int, q: int| 0 <= p < q < ins.len() implies lex_lt(
            #[trigger] ins[p],
            #[trigger] ins[q],
        ) by {
            if q < i {
            } else if p < i && q == i {
                assert(ins[p] == vv[p]);
                assert(lex_lt(vv[p], x@));
            } else if p < i && q > i {
                assert(ins[p] == vv[p] && ins[q] == vv[q - 1]);
                if q - 1 == p {
                    assert(lex_lt(vv[p], x@));
                    if i < n {
                        assert(lex_lt(x@, vv[i as int]));
                        assert(p < i <= q - 1);
                    }
                    assert(false);
                }
            } else if p == i {
                assert(ins[p] == x@ && ins[q] == vv[q - 1]);
                assert(lex_lt(x@, vv[i as int]));
                if q - 1 > i {
                    assert(lex_lt(vv[i as int], vv[q - 1]));
                    lemma_lex_lt_trans(x@, vv[i as int], vv[q - 1]);
                }
            } else {
                assert(ins[p] == vv[p - 1] && ins[q] == vv[q - 1]);
            }
        }
        // the set grows by exactly x
        assert(nv.to_set() =~= vv.to_set().insert(x@)) by {
            assert forall|y: Seq<char>| nv.to_set().contains(y) implies vv.to_set().insert(
                x@,
            ).contains(y) by {
                let k = choose|k: int| 0 <= k < nv.len() && nv[k] == y;
                if k < i {
                    assert(vv[k] == y);
                } else if k > i {
                    assert(vv[k - 1] == y);
                }
            }
            assert forall|y: Seq<char>| vv.to_set().insert(x@).contains(y) implies nv.to_set()
                .contains(y) by {
                if y == x@ {
                    assert(nv[i as int] == y);
                } else {
                    let k = choose|k: int| 0 <= k < vv.len() && vv[k] == y;
                    if k < i {
                        assert(nv[k] == y);
                    } else {
                        assert(nv[k + 1] == y);
                    }
                }
            }
        }
    }
}

/// The strictly sorted, duplicate-free union of the two name lists.
pub(crate) fn watch_union(base: &Vec<String>, additions: &Vec<String>) -> (r: Vec<String>)
    ensures
        strictly_sorted(str_views(r@)),
        str_views(r@).to_set() == str_views(base@).to_set() + str_views(additions@).to_set(),
{
    let mut r: Vec<String> = Vec::new();
    let nb = base.len();
    for i in 0..nb
        invariant
            nb == base@.len(),
            strictly_sorted(str_views(r@)),
            str_views(r@).to_set() == str_views(base@).take(i as int).to_set(),
    {
        let ghost pre = str_views(r@).to_set();
        insert_sorted_unique(&mut r, &base[i]);
        proof {
            let bv = str_views(base@);
            assert(bv[i as int] == base@[i as int]@);
            assert(bv.take(i as int).push(bv[i as int]) =~= bv.take(i + 1));
            lemma_push_to_set(bv.take(i as int), bv[i as int]);
        }
    }
    let na = additions.len();
    proof {
        assert(str_views(base@).take(nb as int) =~= str_views(base@));
        assert(str_views(additions@).take(0).to_set() =~= Set::<Seq<char>>::empty());
        assert(str_views(r@).to_set() =~= str_views(base@).to_set() + str_views(
            additions@,
        ).take(0).to_set());
    }
    for i in 0..na
        invariant
            na == additions@.len(),
            strictly_sorted(str_views(r@)),
            str_views(r@).to_set() == str_views(base@).to_set() + str_views(additions@).take(
                i as int,
            ).to_set(),
    {
        let ghost pre = str_views(r@).to_set();
        insert_sorted_unique(&mut r, &additions[i]);
        proof {
            let av = str_views(additions@);
            assert(av[i as int] == additions@[i as int]@);
            assert(av.take(i as int).push(av[i as int]) =~= av.take(i + 1));
            lemma_push_to_set(av.take(i as int), av[i as int]);
            assert(str_views(r@).to_set() =~= str_views(base@).to_set() + av.take(i + 1).to_set());
        }
    }
    proof {
        assert(str_views(additions@).take(na as int) =~= str_views(additions@));
    }
    r
}

/// Appending an entry adds exactly it to the entry set.
pub proof fn lemma_push_to_set(s: Seq<Seq<char>>, x: Seq<char>)
    ensures
        s.push(x).to_set() == s.to_set().insert(x),
{
    assert(s.push(x).to_set() =~= s.to_set().insert(x)) by {
        assert forall|y: Seq<char>| s.push(x).to_set().contains(y) implies s.to_set().insert(
            x,
        ).contains(y) by {
            let k = choose|k: int| 0 <= k < s.push(x).len() && s.push(x)[k] == y;
            if k < s.len() {
                assert(s[k] == y);
            }
        }
        assert forall|y: Seq<char>| s.to_set().insert(x).contains(y) implies s.push(x).to_set()
            .contains(y) by {
            if y == x {
                assert(s.push(x)[s.len() as int] == y);
            } else {
                let k = choose|k: int| 0 <= k < s.len() && s[k] == y;
                assert(s.push(x)[k] == y);
            }
        }
    }
}

} // verus!
