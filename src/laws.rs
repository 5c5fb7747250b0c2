//! What holds of every index that a walk yields.

use vstd::prelude::*;
use crate::entry::{extension_of, WalkEntry};
use crate::index::{appended, extension_pairs, index_of, name_pairs, FileCache};

verus! {

proof fn lemma_push_contains<A>(s: Seq<A>, x: A, y: A)
    ensures
        s.push(x).contains(y) <==> (s.contains(y) || x == y),
{
    if s.contains(y) {
        let j = choose|j: int| 0 <= j < s.len() && s[j] == y;
        assert(s.push(x)[j] == y);
    }
    if x == y {
        assert(s.push(x)[s.len() as int] == y);
    }
    if s.push(x).contains(y) {
        let j = choose|j: int| 0 <= j < s.len() + 1 && s.push(x)[j] == y;
        if j < s.len() {
            assert(s[j] == y);
        }
    }
}

/// A value sits in a bucket of `appended(empty, ps)` exactly where `ps` holds
/// it with that key.
proof fn lemma_appended_holds(ps: Seq<(Seq<char>, Seq<char>)>, k: Seq<char>, v: Seq<char>)
    ensures
        ({
            let m = appended(Map::empty(), ps);
            m.contains_key(k) && m[k].contains(v)
        }) <==> ps.contains((k, v)),
    decreases ps.len(),
{
    if ps.len() > 0 {
        let ps0 = ps.drop_last();
        let (k1, v1) = ps.last();
        lemma_appended_holds(ps0, k, v);
        assert(ps0.push(ps.last()) =~= ps);
        lemma_push_contains(ps0, ps.last(), (k, v));
        let m0 = appended(Map::<Seq<char>, Seq<Seq<char>>>::empty(), ps0);
        if k == k1 {
            if m0.contains_key(k) {
                lemma_push_contains(m0[k], v1, v);
            } else {
                lemma_push_contains(Seq::<Seq<char>>::empty(), v1, v);
                assert(seq![v1] =~= Seq::<Seq<char>>::empty().push(v1));
            }
        }
    }
}

proof fn lemma_name_pairs_hold(es: Seq<WalkEntry>, k: Seq<char>, p: Seq<char>)
    ensures
        name_pairs(es).contains((k, p)) <==> exists|i: int|
            0 <= i < es.len() && es[i].is_file && es[i].name@ == k && es[i].path@ == p,
    decreases es.len(),
{
    if es.len() > 0 {
        let es0 = es.drop_last();
        let e = es.last();
        lemma_name_pairs_hold(es0, k, p);
        lemma_push_contains(name_pairs(es0), (e.name@, e.path@), (k, p));
        if exists|i: int| 0 <= i < es0.len() && es0[i].is_file && es0[i].name@ == k && es0[i].path@ == p {
            let i = choose|i: int| 0 <= i < es0.len() && es0[i].is_file && es0[i].name@ == k && es0[i].path@ == p;
            assert(es[i] == es0[i]);
        }
        if exists|i: int| 0 <= i < es.len() && es[i].is_file && es[i].name@ == k && es[i].path@ == p {
            let i = choose|i: int| 0 <= i < es.len() && es[i].is_file && es[i].name@ == k && es[i].path@ == p;
            if i < es0.len() {
                assert(es0[i] == es[i]);
            }
        }
    }
}

proof fn lemma_extension_pairs_hold(es: Seq<WalkEntry>, k: Seq<char>, p: Seq<char>)
    ensures
        extension_pairs(es).contains((k, p)) <==> exists|i: int|
            0 <= i < es.len() && es[i].is_file && extension_of(es[i].name@) == Some(k)
                && es[i].path@ == p,
    decreases es.len(),
{
    if es.len() > 0 {
        let es0 = es.drop_last();
        let e = es.last();
        lemma_extension_pairs_hold(es0, k, p);
        lemma_push_contains(extension_pairs(es0), (extension_of(e.name@)->0, e.path@), (k, p));
        if exists|i: int| 0 <= i < es0.len() && es0[i].is_file && extension_of(es0[i].name@) == Some(k) && es0[i].path@ == p {
            let i = choose|i: int| 0 <= i < es0.len() && es0[i].is_file && extension_of(es0[i].name@) == Some(k) && es0[i].path@ == p;
            assert(es[i] == es0[i]);
        }
        if exists|i: int| 0 <= i < es.len() && es[i].is_file && extension_of(es[i].name@) == Some(k) && es[i].path@ == p {
            let i = choose|i: int| 0 <= i < es.len() && es[i].is_file && extension_of(es[i].name@) == Some(k) && es[i].path@ == p;
            if i < es0.len() {
                assert(es0[i] == es[i]);
            }
        }
    }
}

/// Every regular file that the walk reports is indexed under its exact file
/// name, and under its extension where it has one.
pub proof fn lemma_coverage(es: Seq<WalkEntry>, i: int)
    requires
        0 <= i < es.len(),
        es[i].is_file,
    ensures
        index_of(es).0.contains_key(es[i].name@),
        index_of(es).0[es[i].name@].contains(es[i].path@),
        extension_of(es[i].name@) matches Some(x) ==> index_of(es).1.contains_key(x)
            && index_of(es).1[x].contains(es[i].path@),
{
    lemma_name_pairs_hold(es, es[i].name@, es[i].path@);
    lemma_appended_holds(name_pairs(es), es[i].name@, es[i].path@);
    if let Some(x) = extension_of(es[i].name@) {
        lemma_extension_pairs_hold(es, x, es[i].path@);
        lemma_appended_holds(extension_pairs(es), x, es[i].path@);
    }
}

/// A path is indexed under a file name only where the walk reported a regular
/// file of that path and name, and under an extension only where it reported a
/// regular file of that path whose name has that extension.
pub proof fn lemma_no_cross_contamination(es: Seq<WalkEntry>, k: Seq<char>, p: Seq<char>)
    ensures
        index_of(es).0.contains_key(k) && index_of(es).0[k].contains(p) ==> exists|i: int|
            0 <= i < es.len() && es[i].is_file && es[i].name@ == k && es[i].path@ == p,
        index_of(es).1.contains_key(k) && index_of(es).1[k].contains(p) ==> exists|i: int|
            0 <= i < es.len() && es[i].is_file && extension_of(es[i].name@) == Some(k)
                && es[i].path@ == p,
{
    lemma_name_pairs_hold(es, k, p);
    lemma_appended_holds(name_pairs(es), k, p);
    lemma_extension_pairs_hold(es, k, p);
    lemma_appended_holds(extension_pairs(es), k, p);
}

/// A walk names each path by its final component: reported files of one path
/// carry one name.
pub open spec fn names_follow_paths(es: Seq<WalkEntry>) -> bool {
    forall|a: int, b: int|
        0 <= a < es.len() && 0 <= b < es.len() && es[a].is_file && es[b].is_file && es[a].path@
            == es[b].path@ ==> es[a].name@ == es[b].name@
}

/// The path of a reported regular file is in some extension bucket exactly
/// where its name has an extension, and then in the bucket of that extension.
pub proof fn lemma_extension_bucket_iff(es: Seq<WalkEntry>, i: int)
    requires
        0 <= i < es.len(),
        es[i].is_file,
        names_follow_paths(es),
    ensures
        (exists|k: Seq<char>| #[trigger] index_of(es).1.contains_key(k) && index_of(es).1[k].contains(
            es[i].path@,
        )) <==> extension_of(es[i].name@) is Some,
        extension_of(es[i].name@) matches Some(x) ==> index_of(es).1.contains_key(x)
            && index_of(es).1[x].contains(es[i].path@),
{
    lemma_coverage(es, i);
    let p = es[i].path@;
    if exists|k: Seq<char>| #[trigger] index_of(es).1.contains_key(k) && index_of(es).1[k].contains(p) {
        let k = choose|k: Seq<char>| #[trigger] index_of(es).1.contains_key(k) && index_of(es).1[k].contains(p);
        lemma_no_cross_contamination(es, k, p);
        let j = choose|j: int|
            0 <= j < es.len() && es[j].is_file && extension_of(es[j].name@) == Some(k)
                && es[j].path@ == p;
        assert(es[j].name@ == es[i].name@);
    }
    if let Some(x) = extension_of(es[i].name@) {
        assert(index_of(es).1.contains_key(x) && index_of(es).1[x].contains(p));
    }
}

/// The values of `ps` are pairwise distinct.
pub open spec fn values_distinct(ps: Seq<(Seq<char>, Seq<char>)>) -> bool {
    forall|a: int, b: int| 0 <= a < b < ps.len() ==> ps[a].1 != ps[b].1
}

/// The regular files among `es` have pairwise distinct paths.
pub open spec fn file_paths_distinct(es: Seq<WalkEntry>) -> bool {
    forall|a: int, b: int|
        0 <= a < b < es.len() && es[a].is_file && es[b].is_file ==> es[a].path@ != es[b].path@
}

proof fn lemma_appended_no_duplicates(ps: Seq<(Seq<char>, Seq<char>)>, k: Seq<char>)
    requires
        values_distinct(ps),
    ensures
        appended(Map::empty(), ps).contains_key(k) ==> appended(Map::empty(), ps)[k].no_duplicates(),
    decreases ps.len(),
{
    if ps.len() > 0 {
        let ps0 = ps.drop_last();
        let (k1, v1) = ps.last();
        assert(values_distinct(ps0));
        lemma_appended_no_duplicates(ps0, k);
        let m0 = appended(Map::<Seq<char>, Seq<Seq<char>>>::empty(), ps0);
        if k == k1 && m0.contains_key(k) {
            lemma_appended_holds(ps0, k, v1);
            if m0[k].contains(v1) {
                let a = choose|a: int| 0 <= a < ps0.len() && ps0[a] == (k, v1);
                assert(ps[a].1 == ps[ps.len() - 1].1);
            }
            let s = m0[k].push(v1);
            assert forall|a: int, b: int| 0 <= a < s.len() && 0 <= b < s.len() && a != b implies s[a]
                != s[b] by {
                if b == s.len() - 1 {
                    assert(m0[k][a] == s[a]);
                } else if a == s.len() - 1 {
                    assert(m0[k][b] == s[b]);
                }
            }
        }
    }
}

proof fn lemma_name_values_distinct(es: Seq<WalkEntry>)
    requires
        file_paths_distinct(es),
    ensures
        values_distinct(name_pairs(es)),
    decreases es.len(),
{
    if es.len() > 0 {
        let es0 = es.drop_last();
        let e = es.last();
        assert(file_paths_distinct(es0)) by {
            assert forall|a: int, b: int|
                0 <= a < b < es0.len() && es0[a].is_file && es0[b].is_file implies es0[a].path@
                != es0[b].path@ by {
                assert(es0[a] == es[a] && es0[b] == es[b]);
            }
        }
        lemma_name_values_distinct(es0);
        let ps0 = name_pairs(es0);
        if e.is_file {
            let ps = name_pairs(es);
            assert forall|a: int, b: int| 0 <= a < b < ps.len() implies ps[a].1 != ps[b].1 by {
                if b == ps.len() - 1 {
                    assert(ps0.contains(ps0[a]));
                    lemma_name_pairs_hold(es0, ps0[a].0, ps0[a].1);
                    let i = choose|i: int|
                        0 <= i < es0.len() && es0[i].is_file && es0[i].name@ == ps0[a].0
                            && es0[i].path@ == ps0[a].1;
                    assert(es[i] == es0[i]);
                } else {
                    assert(ps[a] == ps0[a] && ps[b] == ps0[b]);
                }
            }
        }
    }
}

proof fn lemma_extension_values_distinct(es: Seq<WalkEntry>)
    requires
        file_paths_distinct(es),
    ensures
        values_distinct(extension_pairs(es)),
    decreases es.len(),
{
    if es.len() > 0 {
        let es0 = es.drop_last();
        let e = es.last();
        assert(file_paths_distinct(es0)) by {
            assert forall|a: int, b: int|
                0 <= a < b < es0.len() && es0[a].is_file && es0[b].is_file implies es0[a].path@
                != es0[b].path@ by {
                assert(es0[a] == es[a] && es0[b] == es[b]);
            }
        }
        lemma_extension_values_distinct(es0);
        let ps0 = extension_pairs(es0);
        if e.is_file && extension_of(e.name@) is Some {
            let ps = extension_pairs(es);
            assert forall|a: int, b: int| 0 <= a < b < ps.len() implies ps[a].1 != ps[b].1 by {
                if b == ps.len() - 1 {
                    assert(ps0.contains(ps0[a]));
                    lemma_extension_pairs_hold(es0, ps0[a].0, ps0[a].1);
                    let i = choose|i: int|
                        0 <= i < es0.len() && es0[i].is_file && extension_of(es0[i].name@) == Some(
                            ps0[a].0,
                        ) && es0[i].path@ == ps0[a].1;
                    assert(es[i] == es0[i]);
                } else {
                    assert(ps[a] == ps0[a] && ps[b] == ps0[b]);
                }
            }
        }
    }
}

/// Where the walk reports each file path once, no bucket of the index holds a
/// path twice.
pub proof fn lemma_no_path_twice(es: Seq<WalkEntry>, k: Seq<char>)
    requires
        file_paths_distinct(es),
    ensures
        index_of(es).0.contains_key(k) ==> index_of(es).0[k].no_duplicates(),
        index_of(es).1.contains_key(k) ==> index_of(es).1[k].no_duplicates(),
{
    lemma_name_values_distinct(es);
    lemma_extension_values_distinct(es);
    lemma_appended_no_duplicates(name_pairs(es), k);
    lemma_appended_no_duplicates(extension_pairs(es), k);
}

/// Two indexes built from the walk of one unchanged tree are equal.
pub proof fn lemma_build_idempotent(a: FileCache, b: FileCache, es: Seq<WalkEntry>)
    requires
        a@ == index_of(es),
        b@ == index_of(es),
    ensures
        a@.0 == b@.0,
        a@.1 == b@.1,
{
}

} // verus!
