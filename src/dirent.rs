//! Directory entries: an insertion-ordered list of unique names.
use vstd::prelude::*;
use crate::errno::Errno;
use crate::inode::{DirEntry, NamedEntry};

verus! {

/// The names of a directory's entries, in order.
pub open spec fn names(es: Seq<NamedEntry>) -> Seq<Seq<u8>> {
    es.map_values(|e: NamedEntry| e.name@)
}

/// No two entries share a name.
pub open spec fn names_unique(es: Seq<NamedEntry>) -> bool {
    forall|i: int, j: int| 0 <= i < j < es.len() ==> #[trigger] es[i].name@ != #[trigger] es[j].name@
}

/// Whether some entry is called `name`.
pub open spec fn has_name(es: Seq<NamedEntry>, name: Seq<u8>) -> bool {
    exists|i: int| 0 <= i < es.len() && #[trigger] es[i].name@ == name
}

/// The entry called `name`, if there is one.
pub open spec fn entry_of(es: Seq<NamedEntry>, name: Seq<u8>) -> Option<DirEntry> {
    if has_name(es, name) {
        Some(es[choose|i: int| 0 <= i < es.len() && #[trigger] es[i].name@ == name].entry)
    } else {
        None
    }
}

proof fn lemma_entry_at(es: Seq<NamedEntry>, i: int)
    requires
        names_unique(es),
        0 <= i < es.len(),
    ensures
        entry_of(es, es[i].name@) == Some(es[i].entry),
{
    let name = es[i].name@;
    assert(has_name(es, name));
    let k = choose|k: int| 0 <= k < es.len() && #[trigger] es[k].name@ == name;
    if k != i {
        if k < i {
            assert(es[k].name@ != es[i].name@);
        } else {
            assert(es[i].name@ != es[k].name@);
        }
    }
}

/// Whether two byte strings are equal.
pub fn bytes_eq(a: &[u8], b: &[u8]) -> (r: bool)
    ensures
        r == (a@ == b@),
{
    if a.len() != b.len() {
        return false;
    }
    let mut i: usize = 0;
    while i < a.len()
        invariant
            a@.len() == b@.len(),
            i <= a@.len(),
            forall|t: int| 0 <= t < i ==> a@[t] == b@[t],
        decreases a@.len() - i,
    {
        if a[i] != b[i] {
            return false;
        }
        i = i + 1;
    }
    assert(a@ =~= b@);
    true
}

/// An owned copy of a byte string.
pub fn copy_bytes(a: &[u8]) -> (r: Vec<u8>)
    ensures
        r@ == a@,
{
    let mut r: Vec<u8> = Vec::new();
    let mut i: usize = 0;
    while i < a.len()
        invariant
            i <= a@.len(),
            r@ == a@.subrange(0, i as int),
        decreases a@.len() - i,
    {
        r.push(a[i]);
        i = i + 1;
        assert(r@ =~= a@.subrange(0, i as int));
    }
    assert(a@.subrange(0, i as int) =~= a@);
    r
}

/// The position of the entry called `name`, if there is one.
pub fn find_entry(es: &Vec<NamedEntry>, name: &[u8]) -> (r: Option<usize>)
    ensures
        match r {
            Some(i) => i < es@.len() && es@[i as int].name@ == name@,
            None => !has_name(es@, name@),
        },
{
    let mut i: usize = 0;
    while i < es.len()
        invariant
            i <= es@.len(),
            forall|t: int| 0 <= t < i ==> es@[t].name@ != name@,
        decreases es@.len() - i,
    {
        if bytes_eq(es[i].name.as_slice(), name) {
            return Some(i);
        }
        i = i + 1;
    }
    None
}

/// The entry called `name`; `NoEnt` when there is none.
pub fn lookup_entry(es: &Vec<NamedEntry>, name: &[u8]) -> (r: Result<DirEntry, Errno>)
    requires
        names_unique(es@),
    ensures
        match r {
            Ok(e) => entry_of(es@, name@) == Some(e),
            Err(err) => err == Errno::NoEnt && entry_of(es@, name@) is None,
        },
{
    match find_entry(es, name) {
        Some(i) => {
            proof {
                lemma_entry_at(es@, i as int);
            }
            Ok(es[i].entry)
        },
        None => Err(Errno::NoEnt),
    }
}

/// Adds `name -> entry` at the end; `Exist`, with nothing changed, when the
/// name is taken.
pub fn insert_entry(es: &mut Vec<NamedEntry>, name: &[u8], entry: DirEntry) -> (r: Result<(), Errno>)
    requires
        names_unique(old(es)@),
    ensures
        names_unique(final(es)@),
        match r {
            Ok(()) => {
                &&& !has_name(old(es)@, name@)
                &&& final(es)@.len() == old(es)@.len() + 1
                &&& final(es)@.drop_last() == old(es)@
                &&& final(es)@.last().name@ == name@
                &&& final(es)@.last().entry == entry
                &&& entry_of(final(es)@, name@) == Some(entry)
                &&& forall|n: Seq<u8>| n != name@ ==> entry_of(#[trigger] final(es)@, n) == entry_of(old(es)@, n)
            },
            Err(err) => err == Errno::Exist && has_name(old(es)@, name@) && final(es)@ == old(es)@,
        },
{
    match find_entry(es, name) {
        Some(_) => Err(Errno::Exist),
        None => {
            let owned = copy_bytes(name);
            es.push(NamedEntry { name: owned, entry });
            proof {
                assert(es@.drop_last() =~= old(es)@);
                assert forall|i: int, j: int| 0 <= i < j < es@.len() implies #[trigger] es@[i].name@
                    != #[trigger] es@[j].name@ by {
                    if j == es@.len() - 1 {
                        assert(old(es)@[i].name@ != name@);
                    } else {
                        assert(old(es)@[i].name@ != old(es)@[j].name@);
                    }
                }
                let ne = es@.last();
                assert(es@ == old(es)@.push(ne));
                lemma_entry_of_push(old(es)@, ne, name@);
                assert forall|n: Seq<u8>| n != name@ implies entry_of(#[trigger] es@, n) == entry_of(old(es)@, n) by {
                    lemma_entry_of_push(old(es)@, ne, n);
                }
            }
            Ok(())
        },
    }
}

/// Removes the entry called `name` and returns it, keeping the order of
/// the others; `NoEnt`, with nothing changed, when there is none.
pub fn remove_entry(es: &mut Vec<NamedEntry>, name: &[u8]) -> (r: Result<DirEntry, Errno>)
    requires
        names_unique(old(es)@),
    ensures
        names_unique(final(es)@),
        match r {
            Ok(e) => {
                &&& entry_of(old(es)@, name@) == Some(e)
                &&& exists|i: int| 0 <= i < old(es)@.len() && old(es)@[i].name@ == name@ && final(es)@ == old(es)@.remove(i)
                &&& !has_name(final(es)@, name@)
                &&& forall|n: Seq<u8>| n != name@ ==> entry_of(#[trigger] final(es)@, n) == entry_of(old(es)@, n)
            },
            Err(err) => err == Errno::NoEnt && !has_name(old(es)@, name@) && final(es)@ == old(es)@,
        },
{
    match find_entry(es, name) {
        Some(i) => {
            proof {
                lemma_entry_at(es@, i as int);
            }
            let removed = es.remove(i);
            proof {
                let o = old(es)@;
                let f = es@;
                assert(f =~= o.remove(i as int));
                assert forall|a: int, b: int| 0 <= a < b < f.len() implies #[trigger] f[a].name@ != #[trigger] f[b].name@ by {
                    let a2 = if a < i { a } else { a + 1 };
                    let b2 = if b < i { b } else { b + 1 };
                    assert(o[a2].name@ != o[b2].name@);
                }
                assert forall|n: Seq<u8>| n != name@ implies #[trigger] entry_of(f, n) == entry_of(o, n) by {
                    lemma_entry_of_remove(o, i as int, n);
                }
                if has_name(f, name@) {
                    let k = choose|k: int| 0 <= k < f.len() && #[trigger] f[k].name@ == name@;
                    let k2 = if k < i { k } else { k + 1 };
                    if k2 < i {
                        assert(o[k2].name@ != o[i as int].name@);
                    } else {
                        assert(o[i as int].name@ != o[k2].name@);
                    }
                }
            }
            Ok(removed.entry)
        },
        None => Err(Errno::NoEnt),
    }
}

proof fn lemma_entry_of_remove(es: Seq<NamedEntry>, i: int, n: Seq<u8>)
    requires
        names_unique(es),
        0 <= i < es.len(),
        n != es[i].name@,
    ensures
        entry_of(es.remove(i), n) == entry_of(es, n),
{
    let f = es.remove(i);
    if has_name(es, n) {
        let k = choose|k: int| 0 <= k < es.len() && #[trigger] es[k].name@ == n;
        lemma_entry_at(es, k);
        let k2 = if k < i { k } else { k - 1 };
        assert(f[k2] == es[k]);
        assert(names_unique(f)) by {
            assert forall|a: int, b: int| 0 <= a < b < f.len() implies #[trigger] f[a].name@ != #[trigger] f[b].name@ by {
                let a2 = if a < i { a } else { a + 1 };
                let b2 = if b < i { b } else { b + 1 };
                assert(es[a2].name@ != es[b2].name@);
            }
        }
        lemma_entry_at(f, k2);
    } else {
        if has_name(f, n) {
            let k = choose|k: int| 0 <= k < f.len() && #[trigger] f[k].name@ == n;
            let k2 = if k < i { k } else { k + 1 };
            assert(es[k2].name@ == n);
        }
    }
}

proof fn lemma_entry_of_push(es: Seq<NamedEntry>, ne: NamedEntry, n: Seq<u8>)
    requires
        names_unique(es.push(ne)),
    ensures
        n == ne.name@ ==> entry_of(es.push(ne), n) == Some(ne.entry),
        n != ne.name@ ==> entry_of(es.push(ne), n) == entry_of(es, n),
{
    let f = es.push(ne);
    lemma_entry_at(f, es.len() as int);
    if n != ne.name@ {
        if has_name(es, n) {
            let k = choose|k: int| 0 <= k < es.len() && #[trigger] es[k].name@ == n;
            assert(names_unique(es)) by {
                assert forall|a: int, b: int| 0 <= a < b < es.len() implies #[trigger] es[a].name@ != #[trigger] es[b].name@ by {
                    assert(f[a] == es[a] && f[b] == es[b]);
                }
            }
            lemma_entry_at(es, k);
            assert(f[k] == es[k]);
            lemma_entry_at(f, k);
        } else if has_name(f, n) {
            let k = choose|k: int| 0 <= k < f.len() && #[trigger] f[k].name@ == n;
            assert(k < es.len());
            assert(es[k].name@ == n);
        }
    }
}

/// Renames the entry `from` to `to`, replacing an entry already called
/// `to`; `NoEnt`, with nothing changed, when `from` is absent.
pub fn rekey_entry(es: &mut Vec<NamedEntry>, from: &[u8], to: &[u8]) -> (r: Result<(), Errno>)
    requires
        names_unique(old(es)@),
    ensures
        names_unique(final(es)@),
        match r {
            Ok(()) => {
                &&& has_name(old(es)@, from@)
                &&& entry_of(final(es)@, to@) == entry_of(old(es)@, from@)
                &&& from@ != to@ ==> !has_name(final(es)@, from@)
                &&& forall|n: Seq<u8>| n != from@ && n != to@ ==> entry_of(#[trigger] final(es)@, n) == entry_of(old(es)@, n)
            },
            Err(err) => err == Errno::NoEnt && !has_name(old(es)@, from@) && final(es)@ == old(es)@,
        },
{
    let ghost o = es@;
    if bytes_eq(from, to) {
        return match find_entry(es, from) {
            Some(i) => {
                proof {
                    lemma_entry_at(o, i as int);
                }
                Ok(())
            },
            None => Err(Errno::NoEnt),
        };
    }
    let moved = match remove_entry(es, from) {
        Ok(e) => e,
        Err(err) => { return Err(err); },
    };
    let ghost m1 = es@;
    proof {
        let i = choose|i: int| 0 <= i < o.len() && o[i].name@ == from@ && m1 == o.remove(i);
        assert forall|n: Seq<u8>| n != from@ implies entry_of(m1, n) == entry_of(o, n) by {
            lemma_entry_of_remove(o, i, n);
        }
    }
    match remove_entry(es, to) {
        Ok(_) => {},
        Err(_) => {},
    }
    let ghost m2 = es@;
    proof {
        if m2 != m1 {
            let i = choose|i: int| 0 <= i < m1.len() && m1[i].name@ == to@ && m2 == m1.remove(i);
            assert forall|n: Seq<u8>| n != to@ implies entry_of(m2, n) == entry_of(m1, n) by {
                lemma_entry_of_remove(m1, i, n);
            }
        }
    }
    let res = insert_entry(es, to, moved);
    proof {
        assert(res is Ok);
        let ne = es@.last();
        assert(es@ == m2.push(ne));
        assert forall|n: Seq<u8>| n != to@ implies entry_of(es@, n) == entry_of(m2, n) by {
            lemma_entry_of_push(m2, ne, n);
        }
        lemma_entry_of_push(m2, ne, to@);
        if has_name(es@, from@) {
            let k = choose|k: int| 0 <= k < es@.len() && #[trigger] es@[k].name@ == from@;
            if k < m2.len() {
                assert(m2[k].name@ == from@);
                assert(!has_name(m1, from@));
                if m2 != m1 {
                    let i = choose|i: int| 0 <= i < m1.len() && m1[i].name@ == to@ && m2 == m1.remove(i);
                    let k2 = if k < i { k } else { k + 1 };
                    assert(m1[k2].name@ == from@);
                } else {
                    assert(m1[k].name@ == from@);
                }
            }
        }
    }
    Ok(())
}

} // verus!
