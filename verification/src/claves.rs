//! Lists of entries keyed by text, seen as finite maps.
use vstd::prelude::*;

verus! {

/// Keys of the entries as texts.
pub open spec fn vista_lista<V>(s: Seq<(String, V)>) -> Seq<(Seq<char>, V)> {
    s.map_values(|e: (String, V)| (e.0@, e.1))
}

/// The map that a list of entries stands for: a later entry wins.
pub open spec fn mapa_de<V>(s: Seq<(Seq<char>, V)>) -> Map<Seq<char>, V>
    decreases s.len(),
{
    if s.len() == 0 {
        Map::empty()
    } else {
        mapa_de(s.drop_last()).insert(s.last().0, s.last().1)
    }
}

pub open spec fn claves_unicas<V>(s: Seq<(Seq<char>, V)>) -> bool {
    forall|i: int, j: int| 0 <= i < j < s.len() ==> s[i].0 != s[j].0
}

/// Value of `k` in the map, 0 when absent.
pub open spec fn cuenta(m: Map<Seq<char>, u64>, k: Seq<char>) -> nat {
    if m.dom().contains(k) {
        m[k] as nat
    } else {
        0
    }
}

/// What the map of a list with distinct keys holds.
pub proof fn lema_mapa_de<V>(s: Seq<(Seq<char>, V)>)
    requires
        claves_unicas(s),
    ensures
        mapa_de(s).dom().finite(),
        mapa_de(s).dom().len() == s.len(),
        forall|i: int| 0 <= i < s.len() ==> #[trigger] mapa_de(s).dom().contains(s[i].0) && mapa_de(s)[s[i].0] == s[i].1,
        forall|k: Seq<char>| #[trigger] mapa_de(s).dom().contains(k) ==> exists|i: int| 0 <= i < s.len() && s[i].0 == k,
    decreases s.len(),
{
    if s.len() > 0 {
        let r = s.drop_last();
        assert(claves_unicas(r)) by {
            assert forall|i: int, j: int| 0 <= i < j < r.len() implies r[i].0 != r[j].0 by {
                assert(r[i] == s[i]);
                assert(r[j] == s[j]);
            }
        }
        lema_mapa_de(r);
        let k = s.last().0;
        assert(!mapa_de(r).dom().contains(k)) by {
            if mapa_de(r).dom().contains(k) {
                let i = choose|i: int| 0 <= i < r.len() && r[i].0 == k;
                assert(s[i].0 == s[s.len() - 1].0);
            }
        }
        assert forall|i: int| 0 <= i < s.len() implies #[trigger] mapa_de(s).dom().contains(s[i].0) && mapa_de(
            s,
        )[s[i].0] == s[i].1 by {
            if i < r.len() {
                assert(r[i] == s[i]);
                assert(s[i].0 != k);
            }
        }
        assert forall|x: Seq<char>| #[trigger] mapa_de(s).dom().contains(x) implies exists|i: int|
            0 <= i < s.len() && s[i].0 == x by {
            if x == k {
                assert(s[s.len() - 1].0 == x);
            } else {
                let i = choose|i: int| 0 <= i < r.len() && r[i].0 == x;
                assert(s[i] == r[i]);
            }
        }
    }
}

/// A map that holds exactly the entries of a list with distinct keys is
/// the map of the list.
pub proof fn lema_mapa_ext<V>(s: Seq<(Seq<char>, V)>, m: Map<Seq<char>, V>)
    requires
        claves_unicas(s),
        forall|i: int| 0 <= i < s.len() ==> #[trigger] m.dom().contains(s[i].0) && m[s[i].0] == s[i].1,
        forall|k: Seq<char>| #[trigger] m.dom().contains(k) ==> exists|i: int| 0 <= i < s.len() && s[i].0 == k,
    ensures
        mapa_de(s) == m,
{
    lema_mapa_de(s);
    assert forall|k: Seq<char>| #[trigger] mapa_de(s).dom().contains(k) <==> m.dom().contains(k) by {
        if mapa_de(s).dom().contains(k) {
            let i = choose|i: int| 0 <= i < s.len() && s[i].0 == k;
            assert(m.dom().contains(s[i].0));
        }
        if m.dom().contains(k) {
            let i = choose|i: int| 0 <= i < s.len() && s[i].0 == k;
            assert(mapa_de(s).dom().contains(s[i].0));
        }
    }
    assert forall|k: Seq<char>| #[trigger] mapa_de(s).dom().contains(k) implies mapa_de(s)[k] == m[k] by {
        let i = choose|i: int| 0 <= i < s.len() && s[i].0 == k;
        assert(mapa_de(s)[s[i].0] == s[i].1);
        assert(m[s[i].0] == s[i].1);
    }
    assert(mapa_de(s) =~= m);
}

/// Changing the value of one entry changes it in the map.
pub proof fn lema_mapa_actualizar<V>(s: Seq<(Seq<char>, V)>, i: int, x: V)
    requires
        claves_unicas(s),
        0 <= i < s.len(),
    ensures
        claves_unicas(s.update(i, (s[i].0, x))),
        mapa_de(s.update(i, (s[i].0, x))) == mapa_de(s).insert(s[i].0, x),
{
    let s1 = s.update(i, (s[i].0, x));
    let m = mapa_de(s).insert(s[i].0, x);
    lema_mapa_de(s);
    assert(claves_unicas(s1)) by {
        assert forall|a: int, b: int| 0 <= a < b < s1.len() implies s1[a].0 != s1[b].0 by {
            assert(s1[a].0 == s[a].0);
            assert(s1[b].0 == s[b].0);
        }
    }
    assert forall|j: int| 0 <= j < s1.len() implies #[trigger] m.dom().contains(s1[j].0) && m[s1[j].0] == s1[j].1 by {
        if j != i {
            assert(s1[j] == s[j]);
            assert(s[j].0 != s[i].0);
        }
    }
    assert forall|k: Seq<char>| #[trigger] m.dom().contains(k) implies exists|j: int| 0 <= j < s1.len() && s1[j].0 == k by {
        if k == s[i].0 {
            assert(s1[i].0 == k);
        } else {
            let j = choose|j: int| 0 <= j < s.len() && s[j].0 == k;
            assert(s1[j].0 == k);
        }
    }
    lema_mapa_ext(s1, m);
}

/// Inserting an entry with a new key anywhere adds it to the map.
pub proof fn lema_mapa_insertar<V>(s: Seq<(Seq<char>, V)>, j: int, k: Seq<char>, x: V)
    requires
        claves_unicas(s),
        0 <= j <= s.len(),
        forall|i: int| 0 <= i < s.len() ==> (#[trigger] s[i]).0 != k,
    ensures
        claves_unicas(s.insert(j, (k, x))),
        mapa_de(s.insert(j, (k, x))) == mapa_de(s).insert(k, x),
{
    let s1 = s.insert(j, (k, x));
    let m = mapa_de(s).insert(k, x);
    lema_mapa_de(s);
    assert(claves_unicas(s1)) by {
        assert forall|a: int, b: int| 0 <= a < b < s1.len() implies s1[a].0 != s1[b].0 by {
            let pa = if a < j { a } else { a - 1 };
            let pb = if b < j { b } else { b - 1 };
            if a != j && b != j {
                assert(s1[a] == s[pa]);
                assert(s1[b] == s[pb]);
            } else if a == j {
                assert(s1[b] == s[pb]);
            } else {
                assert(s1[a] == s[pa]);
            }
        }
    }
    assert forall|a: int| 0 <= a < s1.len() implies #[trigger] m.dom().contains(s1[a].0) && m[s1[a].0] == s1[a].1 by {
        if a != j {
            let pa = if a < j { a } else { a - 1 };
            assert(s1[a] == s[pa]);
            assert(s[pa].0 != k);
            assert(mapa_de(s).dom().contains(s[pa].0) && mapa_de(s)[s[pa].0] == s[pa].1);
        }
    }
    assert forall|q: Seq<char>| #[trigger] m.dom().contains(q) implies exists|a: int| 0 <= a < s1.len() && s1[a].0 == q by {
        if q == k {
            assert(s1[j].0 == q);
        } else {
            let i = choose|i: int| 0 <= i < s.len() && s[i].0 == q;
            if i < j {
                assert(s1[i].0 == q);
            } else {
                assert(s1[i + 1].0 == q);
            }
        }
    }
    lema_mapa_ext(s1, m);
}

/// Removing an entry removes its key from the map.
pub proof fn lema_mapa_quitar<V>(s: Seq<(Seq<char>, V)>, i: int)
    requires
        claves_unicas(s),
        0 <= i < s.len(),
    ensures
        claves_unicas(s.remove(i)),
        mapa_de(s.remove(i)) == mapa_de(s).remove(s[i].0),
{
    let s1 = s.remove(i);
    let m = mapa_de(s).remove(s[i].0);
    lema_mapa_de(s);
    assert(claves_unicas(s1)) by {
        assert forall|a: int, b: int| 0 <= a < b < s1.len() implies s1[a].0 != s1[b].0 by {
            let pa = if a < i { a } else { a + 1 };
            let pb = if b < i { b } else { b + 1 };
            assert(s1[a] == s[pa]);
            assert(s1[b] == s[pb]);
        }
    }
    assert forall|a: int| 0 <= a < s1.len() implies #[trigger] m.dom().contains(s1[a].0) && m[s1[a].0] == s1[a].1 by {
        let pa = if a < i { a } else { a + 1 };
        assert(s1[a] == s[pa]);
        assert(s[pa].0 != s[i].0);
        assert(mapa_de(s).dom().contains(s[pa].0) && mapa_de(s)[s[pa].0] == s[pa].1);
    }
    assert forall|q: Seq<char>| #[trigger] m.dom().contains(q) implies exists|a: int| 0 <= a < s1.len() && s1[a].0 == q by {
        let b = choose|b: int| 0 <= b < s.len() && s[b].0 == q;
        assert(b != i);
        if b < i {
            assert(s1[b].0 == q);
        } else {
            assert(s1[b - 1].0 == q);
        }
    }
    lema_mapa_ext(s1, m);
}

/// The map of a list, whatever its keys: a key is there when some entry
/// has it, with the value of its last entry.
pub proof fn lema_mapa_ultima<V>(s: Seq<(Seq<char>, V)>, k: Seq<char>)
    ensures
        mapa_de(s).dom().contains(k) <==> exists|i: int| 0 <= i < s.len() && s[i].0 == k,
        forall|i: int|
            0 <= i < s.len() && s[i].0 == k && (forall|j: int| i < j < s.len() ==> s[j].0 != k)
                ==> mapa_de(s)[k] == s[i].1,
    decreases s.len(),
{
    if s.len() > 0 {
        let r = s.drop_last();
        lema_mapa_ultima(r, k);
        if s.last().0 != k {
            assert forall|i: int| 0 <= i < s.len() && s[i].0 == k implies 0 <= i < r.len() && r[i].0 == k by {
                if i == s.len() - 1 {
                    assert(s[i] == s.last());
                }
            }
            assert((exists|i: int| 0 <= i < s.len() && s[i].0 == k) ==> exists|i: int| 0 <= i < r.len() && r[i].0 == k);
            assert forall|i: int| 0 <= i < r.len() && r[i].0 == k implies 0 <= i < s.len() && s[i].0 == k by {
                assert(s[i] == r[i]);
            }
            assert forall|i: int|
                0 <= i < s.len() && s[i].0 == k && (forall|j: int| i < j < s.len() ==> s[j].0 != k) implies mapa_de(s)[k] == s[i].1 by {
                assert(i < r.len());
                assert(r[i] == s[i]);
                assert forall|j: int| i < j < r.len() implies r[j].0 != k by {
                    assert(r[j] == s[j]);
                }
            }
        } else {
            assert(s[s.len() - 1].0 == k);
            assert forall|i: int|
                0 <= i < s.len() && s[i].0 == k && (forall|j: int| i < j < s.len() ==> s[j].0 != k) implies mapa_de(s)[k] == s[i].1 by {
                if i < s.len() - 1 {
                    assert(s[s.len() - 1].0 == k);
                }
            }
        }
    }
}

/// Position of the last entry with key `k`.
pub fn ultima_posicion<V>(v: &Vec<(String, V)>, k: &str) -> (r: Option<usize>)
    ensures
        match r {
            Some(i) => i < v@.len() && v@[i as int].0@ == k@ && forall|j: int|
                i < j < v@.len() ==> (#[trigger] v@[j]).0@ != k@,
            None => forall|i: int| 0 <= i < v@.len() ==> (#[trigger] v@[i]).0@ != k@,
        },
{
    let kk = k.to_owned();
    let mut i: usize = v.len();
    while i > 0
        invariant
            kk@ == k@,
            i <= v@.len(),
            forall|j: int| i <= j < v@.len() ==> (#[trigger] v@[j]).0@ != k@,
        decreases i,
    {
        if v[i - 1].0 == kk {
            return Some(i - 1);
        }
        i = i - 1;
    }
    None
}

/// Position of the entry with key `k`.
pub fn posicion<V>(v: &Vec<(String, V)>, k: &str) -> (r: Option<usize>)
    ensures
        match r {
            Some(i) => i < v@.len() && v@[i as int].0@ == k@,
            None => forall|i: int| 0 <= i < v@.len() ==> (#[trigger] v@[i]).0@ != k@,
        },
{
    let kk = k.to_owned();
    let mut i: usize = 0;
    while i < v.len()
        invariant
            kk@ == k@,
            i <= v@.len(),
            forall|j: int| 0 <= j < i ==> (#[trigger] v@[j]).0@ != k@,
        decreases v@.len() - i,
    {
        if v[i].0 == kk {
            return Some(i);
        }
        i = i + 1;
    }
    None
}

} // verus!
