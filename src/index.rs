//! The index of a tree walk: paths by file name and by extension.

use vstd::prelude::*;
use vstd::string::StrSliceExecFns;
use crate::entry::{extension, extension_of, WalkEntry};
use crate::multimap::{buckets_filled, keys_distinct, map_of, MultiMap, Record};

verus! {

pub type Buckets = Map<Seq<char>, Seq<Seq<char>>>;

/// `m` with each pair of `ps` filed in turn: its value last in the bucket of its key.
pub open spec fn appended(m: Buckets, ps: Seq<(Seq<char>, Seq<char>)>) -> Buckets
    decreases ps.len(),
{
    if ps.len() == 0 {
        m
    } else {
        let m0 = appended(m, ps.drop_last());
        let (k, v) = ps.last();
        m0.insert(k, if m0.contains_key(k) { m0[k].push(v) } else { seq![v] })
    }
}

/// The (file name, path) pair of each regular file among `es`, in walk order.
pub open spec fn name_pairs(es: Seq<WalkEntry>) -> Seq<(Seq<char>, Seq<char>)>
    decreases es.len(),
{
    if es.len() == 0 {
        Seq::empty()
    } else {
        let prev = name_pairs(es.drop_last());
        let e = es.last();
        if e.is_file {
            prev.push((e.name@, e.path@))
        } else {
            prev
        }
    }
}

/// The (extension, path) pair of each regular file among `es` that has an
/// extension, in walk order.
pub open spec fn extension_pairs(es: Seq<WalkEntry>) -> Seq<(Seq<char>, Seq<char>)>
    decreases es.len(),
{
    if es.len() == 0 {
        Seq::empty()
    } else {
        let prev = extension_pairs(es.drop_last());
        let e = es.last();
        if e.is_file && extension_of(e.name@) is Some {
            prev.push((extension_of(e.name@)->0, e.path@))
        } else {
            prev
        }
    }
}

/// The index that a walk reporting `es` yields: paths by file name, and
/// paths by extension.
pub open spec fn index_of(es: Seq<WalkEntry>) -> (Buckets, Buckets) {
    (appended(Map::empty(), name_pairs(es)), appended(Map::empty(), extension_pairs(es)))
}

/// What a search asks for: a file name, or an extension given without its dot.
pub enum Query {
    Name(String),
    Extension(String),
}

/// The query typed as `input`: an extension where it starts with `.`, which
/// is dropped, else a file name.
pub fn parse_query(input: &str) -> (r: Query)
    ensures
        match r {
            Query::Extension(e) => input@.len() > 0 && input@[0] == '.' && e@ == input@.subrange(
                1,
                input@.len() as int,
            ),
            Query::Name(n) => !(input@.len() > 0 && input@[0] == '.') && n@ == input@,
        },
{
    let n = input.unicode_len();
    if n > 0 && input.get_char(0) == '.' {
        Query::Extension(input.substring_char(1, n).to_owned())
    } else {
        Query::Name(input.to_owned())
    }
}

/// Well-formed persisted buckets: distinct keys, none empty.
pub open spec fn records_valid(es: Seq<(Seq<char>, Seq<Seq<char>>)>) -> bool {
    keys_distinct(es) && buckets_filled(es)
}

/// The index that persisted buckets stand for, where both lists are well formed.
pub open spec fn decoded(
    names: Seq<(Seq<char>, Seq<Seq<char>>)>,
    exts: Seq<(Seq<char>, Seq<Seq<char>>)>,
) -> Option<(Buckets, Buckets)> {
    if records_valid(names) && records_valid(exts) {
        Some((map_of(names), map_of(exts)))
    } else {
        None
    }
}

/// Reading back the buckets of an index gives the index.
pub proof fn lemma_records_round_trip(c: &FileCache)
    requires
        c.wf(),
    ensures
        decoded(c.records_view().0, c.records_view().1) == Some(c@),
{
    c.lemma_records();
}

/// Paths of files by file name and by extension. Each lookup scans the keys
/// of one map, so it takes time linear in their number (see `MultiMap`).
pub struct FileCache {
    by_name: MultiMap,
    by_extension: MultiMap,
}

impl View for FileCache {
    type V = (Buckets, Buckets);

    closed spec fn view(&self) -> (Buckets, Buckets) {
        (self.by_name@, self.by_extension@)
    }
}

impl FileCache {
    pub closed spec fn wf(&self) -> bool {
        self.by_name.wf() && self.by_extension.wf()
    }

    /// The buckets by file name and by extension, in order of first insertion
    /// of their keys: what is persisted.
    pub closed spec fn records_view(&self) -> (
        Seq<(Seq<char>, Seq<Seq<char>>)>,
        Seq<(Seq<char>, Seq<Seq<char>>)>,
    ) {
        (self.by_name.entries(), self.by_extension.entries())
    }

    /// The buckets by file name, as stored.
    pub fn name_records(&self) -> (r: &Vec<Record>)
        ensures
            crate::multimap::records_view(r@) == self.records_view().0,
    {
        self.by_name.records()
    }

    /// The buckets by extension, as stored.
    pub fn extension_records(&self) -> (r: &Vec<Record>)
        ensures
            crate::multimap::records_view(r@) == self.records_view().1,
    {
        self.by_extension.records()
    }

    /// The index whose buckets are `names` and `exts`, or `None` where in
    /// either list two buckets share a key or a bucket is empty.
    pub fn from_records(names: Vec<Record>, exts: Vec<Record>) -> (r: Option<FileCache>)
        ensures
            r is Some <==> decoded(
                crate::multimap::records_view(names@),
                crate::multimap::records_view(exts@),
            ) is Some,
            r matches Some(c) ==> c.wf() && Some(c@) == decoded(
                crate::multimap::records_view(names@),
                crate::multimap::records_view(exts@),
            ) && c.records_view() == (
                crate::multimap::records_view(names@),
                crate::multimap::records_view(exts@),
            ),
    {
        let n = MultiMap::from_records(names);
        let x = MultiMap::from_records(exts);
        match (n, x) {
            (Some(by_name), Some(by_extension)) => {
                proof {
                    by_name.lemma_view();
                    by_extension.lemma_view();
                }
                Some(FileCache { by_name, by_extension })
            },
            _ => None,
        }
    }

    proof fn lemma_records(&self)
        requires
            self.wf(),
        ensures
            records_valid(self.records_view().0),
            records_valid(self.records_view().1),
            self@ == (map_of(self.records_view().0), map_of(self.records_view().1)),
    {
        self.by_name.lemma_view();
        self.by_extension.lemma_view();
    }

    /// An index with no entries.
    pub fn new() -> (r: FileCache)
        ensures
            r.wf(),
            r@ == (Map::<Seq<char>, Seq<Seq<char>>>::empty(), Map::<Seq<char>, Seq<Seq<char>>>::empty()),
    {
        FileCache { by_name: MultiMap::new(), by_extension: MultiMap::new() }
    }

    /// Files each regular file among `entries`, in order: its path last under
    /// its file name and, where it has an extension, last under that.
    pub fn update_cache(&mut self, entries: &Vec<WalkEntry>)
        requires
            old(self).wf(),
        ensures
            final(self).wf(),
            final(self)@.0 == appended(old(self)@.0, name_pairs(entries@)),
            final(self)@.1 == appended(old(self)@.1, extension_pairs(entries@)),
    {
        let mut i: usize = 0;
        while i < entries.len()
            invariant
                i <= entries@.len(),
                self.wf(),
                self@.0 == appended(old(self)@.0, name_pairs(entries@.take(i as int))),
                self@.1 == appended(old(self)@.1, extension_pairs(entries@.take(i as int))),
            decreases entries@.len() - i,
        {
            let e = &entries[i];
            assert(entries@.take(i + 1).drop_last() =~= entries@.take(i as int));
            assert(entries@.take(i + 1).last() == entries@[i as int]);
            let ghost pre = entries@.take(i as int);
            let ghost post = entries@.take(i + 1);
            let ghost np = name_pairs(pre);
            let ghost xp = extension_pairs(pre);
            assert(np.push((e.name@, e.path@)).drop_last() =~= np);
            assert(xp.push((extension_of(e.name@)->0, e.path@)).drop_last() =~= xp);
            if e.is_file {
                let ext = extension(e.name.as_str());
                match ext {
                    Some(x) => {
                        self.by_extension.append(x, e.path.clone());
                    },
                    None => {},
                }
                self.by_name.append(e.name.clone(), e.path.clone());
            }
            i = i + 1;
        }
        assert(entries@.take(entries@.len() as int) =~= entries@);
    }

    /// The index of a walk that reported `entries`.
    pub fn build(entries: &Vec<WalkEntry>) -> (r: FileCache)
        ensures
            r.wf(),
            r@ == index_of(entries@),
    {
        let mut c = FileCache::new();
        c.update_cache(entries);
        c
    }

    /// Whether no file name is indexed.
    pub fn is_empty(&self) -> (r: bool)
        requires
            self.wf(),
        ensures
            r == (self@.0.dom() == Set::<Seq<char>>::empty()),
    {
        self.by_name.is_empty()
    }

    /// The paths of the files named `name`, in walk order.
    pub fn lookup_by_name(&self, name: &str) -> (r: Option<&Vec<String>>)
        requires
            self.wf(),
        ensures
            match r {
                Some(v) => self@.0.contains_key(name@) && crate::multimap::strings_view(v@) == self@.0[name@],
                None => !self@.0.contains_key(name@),
            },
    {
        let key = name.to_owned();
        self.by_name.get(&key)
    }

    /// The paths that answer `query`, in walk order, or `None` where its key
    /// is not indexed.
    pub fn search(&self, query: &Query) -> (r: Option<&Vec<String>>)
        requires
            self.wf(),
        ensures
            ({
                let (m, k) = match query {
                    Query::Name(n) => (self@.0, n@),
                    Query::Extension(e) => (self@.1, e@),
                };
                match r {
                    Some(v) => m.contains_key(k) && crate::multimap::strings_view(v@) == m[k],
                    None => !m.contains_key(k),
                }
            }),
    {
        match query {
            Query::Name(n) => self.by_name.get(n),
            Query::Extension(e) => self.by_extension.get(e),
        }
    }

    /// The paths of the files with extension `ext` (given without its dot), in walk order.
    pub fn lookup_by_extension(&self, ext: &str) -> (r: Option<&Vec<String>>)
        requires
            self.wf(),
        ensures
            match r {
                Some(v) => self@.1.contains_key(ext@) && crate::multimap::strings_view(v@) == self@.1[ext@],
                None => !self@.1.contains_key(ext@),
            },
    {
        let key = ext.to_owned();
        self.by_extension.get(&key)
    }
}

} // verus!
