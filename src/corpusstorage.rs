//! The registry of named corpora: which corpora exist, which are resident,
//! the order in which they were used, and counting query matches on one.

use vstd::prelude::*;
use vstd::string::*;
use crate::graphdb::GraphDB;
use crate::graphstorage::GraphStorage;
use crate::plan::{Config, ExecutionPlan, PlanError};
use crate::query::Disjunction;
use crate::types::Component;

verus! {

/// Lexicographic order of character sequences.
pub open spec fn lex_lt(a: Seq<char>, b: Seq<char>) -> bool
    decreases a.len(),
{
    if a.len() == 0 {
        b.len() > 0
    } else if b.len() == 0 {
        false
    } else if a[0] != b[0] {
        (a[0] as u32) < (b[0] as u32)
    } else {
        lex_lt(a.drop_first(), b.drop_first())
    }
}

/// The lexicographic order is transitive.
proof fn lemma_lex_trans(a: Seq<char>, b: Seq<char>, c: Seq<char>)
    requires
        lex_lt(a, b),
        lex_lt(b, c),
    ensures
        lex_lt(a, c),
    decreases a.len(),
{
    if a.len() > 0 && b.len() > 0 && c.len() > 0 && a[0] == b[0] && b[0] == c[0] {
        lemma_lex_trans(a.drop_first(), b.drop_first(), c.drop_first());
    }
}

/// Characters with the same code are equal.
proof fn lemma_char_eq(x: char, y: char)
    ensures
        (x as u32) == (y as u32) ==> x == y,
{
}

/// Two different sequences are ordered one way or the other, and no
/// sequence comes before itself.
proof fn lemma_lex_total(a: Seq<char>, b: Seq<char>)
    ensures
        !lex_lt(a, a),
        a != b ==> (lex_lt(a, b) || lex_lt(b, a)),
        !(lex_lt(a, b) && lex_lt(b, a)),
    decreases a.len(),
{
    if a.len() > 0 {
        lemma_lex_total(a.drop_first(), a.drop_first());
        if b.len() > 0 {
            lemma_char_eq(a[0], b[0]);
            lemma_lex_total(a.drop_first(), b.drop_first());
            if a != b && a[0] == b[0] {
                assert(a.drop_first() != b.drop_first()) by {
                    if a.drop_first() == b.drop_first() {
                        assert(a =~= seq![a[0]] + a.drop_first());
                        assert(b =~= seq![b[0]] + b.drop_first());
                    }
                }
            }
        }
    } else if b.len() == 0 {
        assert(a =~= b);
    }
}

/// Dropping an equal prefix keeps the order.
proof fn lemma_lex_skip(a: Seq<char>, b: Seq<char>, i: int)
    requires
        0 <= i <= a.len(),
        i <= b.len(),
        a.subrange(0, i) == b.subrange(0, i),
    ensures
        lex_lt(a, b) == lex_lt(a.skip(i), b.skip(i)),
    decreases i,
{
    if i == 0 {
        assert(a.skip(0) =~= a);
        assert(b.skip(0) =~= b);
    } else {
        assert(a[0] == a.subrange(0, i)[0]);
        assert(b[0] == b.subrange(0, i)[0]);
        assert(a.drop_first().subrange(0, i - 1) =~= a.subrange(0, i).drop_first());
        assert(b.drop_first().subrange(0, i - 1) =~= b.subrange(0, i).drop_first());
        lemma_lex_skip(a.drop_first(), b.drop_first(), i - 1);
        assert(a.drop_first().skip(i - 1) =~= a.skip(i));
        assert(b.drop_first().skip(i - 1) =~= b.skip(i));
    }
}

/// Whether `a` comes before `b` in lexicographic order.
pub fn str_lt(a: &str, b: &str) -> (r: bool)
    ensures
        r == lex_lt(a@, b@),
{
    let la = a.unicode_len();
    let lb = b.unicode_len();
    let mut i: usize = 0;
    while i < la && i < lb
        invariant
            la == a@.len(),
            lb == b@.len(),
            i <= la,
            i <= lb,
            a@.subrange(0, i as int) == b@.subrange(0, i as int),
        decreases la - i,
    {
        let ca = a.get_char(i);
        let cb = b.get_char(i);
        if ca != cb {
            proof {
                lemma_lex_skip(a@, b@, i as int);
                assert(a@.skip(i as int)[0] == ca);
                assert(b@.skip(i as int)[0] == cb);
            }
            return (ca as u32) < (cb as u32);
        }
        assert(a@.subrange(0, i + 1) =~= a@.subrange(0, i as int).push(ca));
        assert(b@.subrange(0, i + 1) =~= b@.subrange(0, i as int).push(cb));
        i += 1;
    }
    proof {
        lemma_lex_skip(a@, b@, i as int);
    }
    i == la && i < lb
}

/// A registered corpus: its name, its database once it is loaded, and when
/// it was last used.
pub struct CorpusEntry {
    pub name: String,
    pub db: Option<GraphDB>,
    pub last_used: u64,
}

/// Why a corpus operation failed.
#[derive(Debug)]
pub enum Error {
    /// No corpus has the name.
    CorpusNotFound,
    /// The corpus or a component the query needs is not loaded.
    LoadingFailed,
    /// No alternative of the query could be planned.
    ImpossibleSearch(Vec<PlanError>),
}

/// The registry of corpora, ordered by name.
pub struct CorpusStorage {
    corpora: Vec<CorpusEntry>,
    max_allowed_cache_size: Option<usize>,
    clock: u64,
}

impl CorpusStorage {
    /// The corpus names, in order.
    pub closed spec fn names(&self) -> Seq<Seq<char>> {
        self.corpora@.map_values(|e: CorpusEntry| e.name@)
    }

    /// Names strictly increase and every loaded database is well formed.
    pub closed spec fn wf(&self) -> bool {
        &&& forall|i: int, j: int|
            0 <= i < j < self.corpora@.len() ==> lex_lt(
                #[trigger] self.corpora@[i].name@,
                #[trigger] self.corpora@[j].name@,
            )
        &&& forall|i: int|
            0 <= i < self.corpora@.len() && (#[trigger] self.corpora@[i]).db is Some
                ==> self.corpora@[i].db->Some_0.wf()
    }

    /// An empty registry that keeps at most `max_allowed_cache_size` corpora
    /// loaded, when given.
    pub fn new(max_allowed_cache_size: Option<usize>) -> (r: CorpusStorage)
        ensures
            r.wf(),
            r.names() == Seq::<Seq<char>>::empty(),
            r.cache_limit() == max_allowed_cache_size,
    {
        let r = CorpusStorage { corpora: Vec::new(), max_allowed_cache_size, clock: 0 };
        assert(r.names() =~= Seq::<Seq<char>>::empty());
        r
    }

    /// The names of all corpora, in lexicographic order.
    pub fn list(&self) -> (r: Vec<String>)
        requires
            self.wf(),
        ensures
            r@.map_values(|s: String| s@) == self.names(),
            forall|i: int, j: int| 0 <= i < j < r@.len() ==> lex_lt(#[trigger] r@[i]@, #[trigger] r@[j]@),
    {
        let mut r: Vec<String> = Vec::new();
        let mut i: usize = 0;
        while i < self.corpora.len()
            invariant
                i <= self.corpora@.len(),
                r@.map_values(|s: String| s@) == self.names().take(i as int),
            decreases self.corpora@.len() - i,
        {
            let ghost before = r@;
            r.push(self.corpora[i].name.clone());
            assert(r@.map_values(|s: String| s@) =~= before.map_values(|s: String| s@).push(self.names()[i as int]));
            i += 1;
            assert(r@.map_values(|s: String| s@) =~= self.names().take(i as int));
        }
        assert(self.names().take(i as int) =~= self.names());
        assert forall|a: int, b: int| 0 <= a < b < r@.len() implies lex_lt(#[trigger] r@[a]@, #[trigger] r@[b]@) by {
            assert(r@[a]@ == r@.map_values(|s: String| s@)[a]);
            assert(r@[b]@ == r@.map_values(|s: String| s@)[b]);
            assert(lex_lt(self.corpora@[a].name@, self.corpora@[b].name@));
        }
        r
    }

    /// The position of corpus `name`, or where it would be inserted.
    fn locate(&self, name: &str) -> (r: (usize, bool))
        requires
            self.wf(),
        ensures
            r.0 <= self.corpora@.len(),
            forall|i: int| 0 <= i < r.0 ==> lex_lt(#[trigger] self.corpora@[i].name@, name@),
            r.1 <==> (r.0 < self.corpora@.len() && self.corpora@[r.0 as int].name@ == name@),
            !r.1 ==> forall|i: int|
                r.0 <= i < self.corpora@.len() ==> lex_lt(name@, #[trigger] self.corpora@[i].name@),
    {
        let mut i: usize = 0;
        while i < self.corpora.len()
            invariant
                self.wf(),
                i <= self.corpora@.len(),
                forall|k: int| 0 <= k < i ==> lex_lt(#[trigger] self.corpora@[k].name@, name@),
            decreases self.corpora@.len() - i,
        {
            if !str_lt(self.corpora[i].name.as_str(), name) {
                proof {
                    lemma_lex_total(self.corpora@[i as int].name@, name@);
                }
                if str_lt(name, self.corpora[i].name.as_str()) {
                    proof {
                        assert forall|k: int| i <= k < self.corpora@.len() implies lex_lt(
                            name@,
                            #[trigger] self.corpora@[k].name@,
                        ) by {
                            if k > i {
                                assert(lex_lt(self.corpora@[i as int].name@, self.corpora@[k].name@));
                                lemma_lex_trans(name@, self.corpora@[i as int].name@, self.corpora@[k].name@);
                            }
                        }
                    }
                    return (i, false);
                }
                return (i, true);
            }
            i += 1;
        }
        (i, false)
    }

    /// Register corpus `name` without loading it; a known corpus is kept as it is.
    pub fn register(&mut self, name: &str)
        requires
            old(self).wf(),
        ensures
            final(self).wf(),
            final(self).names().contains(name@),
            forall|x: Seq<char>| final(self).names().contains(x) <==> (old(self).names().contains(x) || x == name@),
            forall|x: Seq<char>| x != name@ ==> #[trigger] final(self).db_of(x) == old(self).db_of(x),
            old(self).names().contains(name@) ==> final(self).db_of(name@) == old(self).db_of(name@),
            !old(self).names().contains(name@) ==> final(self).db_of(name@) is None,
            final(self).cache_limit() == old(self).cache_limit(),
    {
        let (p, found) = self.locate(name);
        if found {
            assert(self.names()[p as int] == name@);
            return;
        }
        self.clock = if self.clock < u64::MAX { self.clock + 1 } else { self.clock };
        let e = CorpusEntry { name: name.to_string(), db: None, last_used: self.clock };
        let ghost ev = e;
        self.insert_at(p, e);
        proof {
            assert forall|k: int| 0 <= k < old(self).names().len() implies old(self).names()[k] != name@ by {
                lemma_lex_total(old(self).corpora@[k].name@, name@);
            }
            CorpusStorage::lemma_insert_preserves(old(self), self, p as int, ev);
            assert(self.corpora@[p as int] == ev);
            self.lemma_unique_name(p as int);
        }
    }

    /// Insert `e` at position `p`, which keeps the names in order.
    fn insert_at(&mut self, p: usize, e: CorpusEntry)
        requires
            old(self).wf(),
            p <= old(self).corpora@.len(),
            forall|i: int| 0 <= i < p ==> lex_lt(#[trigger] old(self).corpora@[i].name@, e.name@),
            forall|i: int| p <= i < old(self).corpora@.len() ==> lex_lt(e.name@, #[trigger] old(self).corpora@[i].name@),
            e.db matches Some(d) ==> d.wf(),
        ensures
            final(self).wf(),
            final(self).corpora@ == old(self).corpora@.insert(p as int, e),
            final(self).names().contains(e.name@),
            forall|x: Seq<char>| final(self).names().contains(x) <==> (old(self).names().contains(x) || x == e.name@),
            final(self).max_allowed_cache_size == old(self).max_allowed_cache_size,
    {
        let ghost ev = e;
        self.corpora.insert(p, e);
        let ghost c = self.corpora@;
        let ghost o = old(self).corpora@;
        assert forall|i: int, j: int| 0 <= i < j < c.len() implies lex_lt(
            #[trigger] c[i].name@,
            #[trigger] c[j].name@,
        ) by {
            if j < p {
                assert(c[i] == o[i] && c[j] == o[j]);
            } else if j == p {
                assert(c[i] == o[i]);
            } else if i > p {
                assert(c[i] == o[i - 1] && c[j] == o[j - 1]);
            } else if i == p {
                assert(c[j] == o[j - 1]);
            } else {
                assert(c[i] == o[i] && c[j] == o[j - 1]);
                lemma_lex_trans(c[i].name@, ev.name@, c[j].name@);
            }
        }
        assert forall|i: int| 0 <= i < c.len() && (#[trigger] c[i]).db is Some implies c[i].db->Some_0.wf() by {
            if i < p {
                assert(c[i] == o[i]);
            } else if i > p {
                assert(c[i] == o[i - 1]);
            }
        }
        assert(self.names() =~= old(self).names().insert(p as int, ev.name@));
        assert(self.names()[p as int] == ev.name@);
        assert forall|x: Seq<char>| self.names().contains(x) <==> (old(self).names().contains(x) || x == ev.name@) by {
            if old(self).names().contains(x) {
                let k = choose|k: int| 0 <= k < old(self).names().len() && old(self).names()[k] == x;
                if k < p {
                    assert(self.names()[k] == x);
                } else {
                    assert(self.names()[k + 1] == x);
                }
            }
            if self.names().contains(x) {
                let k = choose|k: int| 0 <= k < self.names().len() && self.names()[k] == x;
                if k < p {
                    assert(old(self).names()[k] == x);
                } else if k > p {
                    assert(old(self).names()[k - 1] == x);
                }
            }
        }
    }

    /// The database of corpus `name`; `None` when it is unknown or not loaded.
    pub closed spec fn db_of(&self, name: Seq<char>) -> Option<GraphDB> {
        if exists|i: int| 0 <= i < self.corpora@.len() && self.corpora@[i].name@ == name {
            let i = choose|i: int| 0 <= i < self.corpora@.len() && self.corpora@[i].name@ == name;
            self.corpora@[i].db
        } else {
            None
        }
    }

    /// The entry at `i` is the one named by its name.
    proof fn lemma_unique_name(&self, i: int)
        requires
            self.wf(),
            0 <= i < self.corpora@.len(),
        ensures
            self.db_of(self.corpora@[i].name@) == self.corpora@[i].db,
            self.names().contains(self.corpora@[i].name@),
    {
        let name = self.corpora@[i].name@;
        assert(exists|k: int| 0 <= k < self.corpora@.len() && self.corpora@[k].name@ == name);
        assert forall|k: int| 0 <= k < self.corpora@.len() && self.corpora@[k].name@ == name implies k == i by {
            lemma_lex_total(name, name);
            if k < i {
                assert(lex_lt(self.corpora@[k].name@, self.corpora@[i].name@));
            } else if k > i {
                assert(lex_lt(self.corpora@[i].name@, self.corpora@[k].name@));
            }
        }
        assert(self.names()[i] == name);
    }

    /// Put `db` in place as the loaded database of corpus `name`, replacing
    /// any earlier one; an unknown corpus is registered.
    pub fn import(&mut self, name: &str, db: GraphDB)
        requires
            old(self).wf(),
            db.wf(),
        ensures
            final(self).wf(),
            forall|x: Seq<char>| final(self).names().contains(x) <==> (old(self).names().contains(x) || x == name@),
            final(self).db_of(name@) == Some(db),
            forall|x: Seq<char>| x != name@ ==> #[trigger] final(self).db_of(x) == old(self).db_of(x),
            final(self).cache_limit() == old(self).cache_limit(),
    {
        let (p, found) = self.locate(name);
        self.clock = if self.clock < u64::MAX { self.clock + 1 } else { self.clock };
        let ghost dbv = db;
        let e = CorpusEntry { name: name.to_string(), db: Some(db), last_used: self.clock };
        if found {
            let ghost o = self.corpora@;
            self.corpora.set(p, e);
            proof {
                let c = self.corpora@;
                assert forall|i: int, j: int| 0 <= i < j < c.len() implies lex_lt(
                    #[trigger] c[i].name@,
                    #[trigger] c[j].name@,
                ) by {
                    assert(lex_lt(o[i].name@, o[j].name@));
                    if i != p {
                        assert(c[i] == o[i]);
                    }
                    if j != p {
                        assert(c[j] == o[j]);
                    }
                }
                assert forall|i: int| 0 <= i < c.len() && (#[trigger] c[i]).db is Some implies c[i].db->Some_0.wf() by {
                    if i != p {
                        assert(c[i] == o[i]);
                    }
                }
                assert(self.names() =~= old(self).names());
                self.lemma_unique_name(p as int);
                assert forall|i: int| 0 <= i < c.len() && (#[trigger] c[i]).name@ != name@ implies exists|j: int|
                    0 <= j < o.len() && (#[trigger] o[j]).name@ == c[i].name@ && o[j].db == c[i].db by {
                    assert(c[i] == o[i]);
                }
                assert forall|j: int| 0 <= j < o.len() && (#[trigger] o[j]).name@ != name@ implies exists|i: int|
                    0 <= i < c.len() && (#[trigger] c[i]).name@ == o[j].name@ by {
                    assert(c[j] == o[j]);
                }
                CorpusStorage::lemma_dbs_preserved(old(self), self, name@);
            }
        } else {
            let ghost ev = e;
            self.insert_at(p, e);
            proof {
                assert(self.corpora@[p as int].name@ == name@);
                self.lemma_unique_name(p as int);
                CorpusStorage::lemma_insert_preserves(old(self), self, p as int, ev);
            }
        }
    }

    /// What has to be loaded before a query needing `components` can run on
    /// corpus `name`: `Ok(None)` when the database itself is not loaded,
    /// otherwise the components that are missing.
    pub fn missing_components(&self, name: &str, components: &Vec<Component>) -> (r: Result<
        Option<Vec<Component>>,
        Error,
    >)
        requires
            self.wf(),
        ensures
            (r is Err) <==> !self.names().contains(name@),
            r matches Ok(o) ==> (o is None <==> self.db_of(name@) is None),
            r matches Ok(Some(v)) ==> (self.db_of(name@) matches Some(db) && v@.map_values(
                |c: Component| c@,
            ) == crate::graphdb::reads_for(db.loaded(), components@.map_values(|c: Component| c@))),
    {
        let (p, found) = self.locate(name);
        if !found {
            proof {
                assert forall|k: int| 0 <= k < self.names().len() implies self.names()[k] != name@ by {
                    lemma_lex_total(self.corpora@[k].name@, name@);
                }
            }
            return Err(Error::CorpusNotFound);
        }
        proof {
            self.lemma_unique_name(p as int);
        }
        match &self.corpora[p].db {
            None => Ok(None),
            Some(db) => Ok(Some(db.missing_components(components))),
        }
    }

    /// Install the edges `gs` of component `c` in the loaded database of
    /// corpus `name`; `false`, and nothing changed, when that database is not loaded.
    pub fn install_component(&mut self, name: &str, c: &Component, gs: GraphStorage) -> (r: bool)
        requires
            old(self).wf(),
            gs.wf(),
        ensures
            final(self).wf(),
            final(self).names() == old(self).names(),
            r <==> old(self).db_of(name@) is Some,
            r ==> old(self).names().contains(name@),
            r ==> (final(self).db_of(name@) matches Some(db) && db.loaded() == old(self).db_of(
                name@,
            )->Some_0.loaded().insert(c@) && db.edges_of(c@) == gs.edges() && db.strings == old(
                self,
            ).db_of(name@)->Some_0.strings && db.node_annos == old(self).db_of(name@)->Some_0.node_annos),
            forall|x: Seq<char>| x != name@ ==> #[trigger] final(self).db_of(x) == old(self).db_of(x),
            final(self).cache_limit() == old(self).cache_limit(),
    {
        let (p, found) = self.locate(name);
        if !found {
            proof {
                if exists|i: int| 0 <= i < self.corpora@.len() && self.corpora@[i].name@ == name@ {
                    let i = choose|i: int| 0 <= i < self.corpora@.len() && self.corpora@[i].name@ == name@;
                    lemma_lex_total(self.corpora@[i].name@, name@);
                }
            }
            return false;
        }
        proof {
            self.lemma_unique_name(p as int);
        }
        let ghost o = self.corpora@;
        let mut e = self.corpora.remove(p);
        let ghost mid = self.corpora@;
        let ok = match &mut e.db {
            Some(db) => {
                db.install_component(c, gs);
                true
            },
            None => false,
        };
        self.corpora.insert(p, e);
        proof {
            let cc = self.corpora@;
            assert forall|k: int| 0 <= k < cc.len() && k != p implies cc[k] == o[k] by {
                if k < p {
                    assert(cc[k] == mid[k]);
                } else {
                    assert(cc[k] == mid[k - 1]);
                }
            }
            assert(cc[p as int].name == o[p as int].name);
            assert forall|i: int, j: int| 0 <= i < j < cc.len() implies lex_lt(
                #[trigger] cc[i].name@,
                #[trigger] cc[j].name@,
            ) by {
                assert(lex_lt(o[i].name@, o[j].name@));
                assert(cc[i].name == o[i].name);
                assert(cc[j].name == o[j].name);
            }
            assert forall|i: int| 0 <= i < cc.len() && (#[trigger] cc[i]).db is Some implies cc[i].db->Some_0.wf() by {
                if i != p {
                    assert(cc[i] == o[i]);
                }
            }
            assert(self.names() =~= old(self).names()) by {
                assert forall|k: int| 0 <= k < cc.len() implies self.names()[k] == old(self).names()[k] by {
                    assert(cc[k].name == o[k].name);
                }
            }
            self.lemma_unique_name(p as int);
            assert forall|i: int| 0 <= i < cc.len() && (#[trigger] cc[i]).name@ != name@ implies exists|j: int|
                0 <= j < o.len() && (#[trigger] o[j]).name@ == cc[i].name@ && o[j].db == cc[i].db by {
                assert(cc[i] == o[i]);
            }
            assert forall|j: int| 0 <= j < o.len() && (#[trigger] o[j]).name@ != name@ implies exists|i: int|
                0 <= i < cc.len() && (#[trigger] cc[i]).name@ == o[j].name@ by {
                if j != p {
                    assert(cc[j] == o[j]);
                }
            }
            CorpusStorage::lemma_dbs_preserved(old(self), self, name@);
            assert(old(self).names()[p as int] == name@);
        }
        ok
    }

    /// An unregistered name has no database, so a loaded corpus is registered.
    pub proof fn lemma_loaded_registered(&self, x: Seq<char>)
        requires
            self.wf(),
        ensures
            !self.names().contains(x) ==> self.db_of(x) is None,
            self.db_of(x) is Some ==> self.names().contains(x),
    {
        self.lemma_db_of(x);
    }

    /// The database of a registered corpus is that of its entry, an
    /// unregistered name has none, and a loaded corpus is registered.
    proof fn lemma_db_of(&self, x: Seq<char>)
        requires
            self.wf(),
        ensures
            forall|i: int|
                0 <= i < self.corpora@.len() && (#[trigger] self.corpora@[i]).name@ == x ==> self.db_of(x)
                    == self.corpora@[i].db,
            !self.names().contains(x) ==> self.db_of(x) is None,
            self.db_of(x) is Some ==> self.names().contains(x),
    {
        assert forall|i: int|
            0 <= i < self.corpora@.len() && (#[trigger] self.corpora@[i]).name@ == x implies self.db_of(x)
                == self.corpora@[i].db by {
            self.lemma_unique_name(i);
        }
        if exists|i: int| 0 <= i < self.corpora@.len() && self.corpora@[i].name@ == x {
            let i = choose|i: int| 0 <= i < self.corpora@.len() && self.corpora@[i].name@ == x;
            assert(self.names()[i] == x);
        } else {
            assert forall|k: int| 0 <= k < self.names().len() implies self.names()[k] != x by {
                assert(self.names()[k] == self.corpora@[k].name@);
            }
        }
    }

    /// When every entry of `b` named other than `name` has an entry of the
    /// same name and database in `a`, and every such entry of `a` has an entry
    /// of the same name in `b`, both give the same database for every other name.
    proof fn lemma_dbs_preserved(a: &CorpusStorage, b: &CorpusStorage, name: Seq<char>)
        requires
            a.wf(),
            b.wf(),
            forall|i: int|
                0 <= i < b.corpora@.len() && (#[trigger] b.corpora@[i]).name@ != name ==> exists|j: int|
                    0 <= j < a.corpora@.len() && (#[trigger] a.corpora@[j]).name@ == b.corpora@[i].name@
                        && a.corpora@[j].db == b.corpora@[i].db,
            forall|j: int|
                0 <= j < a.corpora@.len() && (#[trigger] a.corpora@[j]).name@ != name ==> exists|i: int|
                    0 <= i < b.corpora@.len() && (#[trigger] b.corpora@[i]).name@ == a.corpora@[j].name@,
        ensures
            forall|x: Seq<char>| x != name ==> #[trigger] b.db_of(x) == a.db_of(x),
    {
        assert forall|x: Seq<char>| x != name implies #[trigger] b.db_of(x) == a.db_of(x) by {
            a.lemma_db_of(x);
            b.lemma_db_of(x);
            if exists|i: int| 0 <= i < b.corpora@.len() && b.corpora@[i].name@ == x {
                let i = choose|i: int| 0 <= i < b.corpora@.len() && b.corpora@[i].name@ == x;
                assert(b.corpora@[i].name@ != name);
                let j = choose|j: int|
                    0 <= j < a.corpora@.len() && (#[trigger] a.corpora@[j]).name@ == b.corpora@[i].name@
                        && a.corpora@[j].db == b.corpora@[i].db;
            } else if exists|j: int| 0 <= j < a.corpora@.len() && a.corpora@[j].name@ == x {
                let j = choose|j: int| 0 <= j < a.corpora@.len() && a.corpora@[j].name@ == x;
                assert(a.corpora@[j].name@ != name);
                let i = choose|i: int|
                    0 <= i < b.corpora@.len() && (#[trigger] b.corpora@[i]).name@ == a.corpora@[j].name@;
            } else {
                assert(!a.names().contains(x)) by {
                    if a.names().contains(x) {
                        let k = choose|k: int| 0 <= k < a.names().len() && a.names()[k] == x;
                        assert(a.corpora@[k].name@ == x);
                    }
                }
                assert(!b.names().contains(x)) by {
                    if b.names().contains(x) {
                        let k = choose|k: int| 0 <= k < b.names().len() && b.names()[k] == x;
                        assert(b.corpora@[k].name@ == x);
                    }
                }
            }
        }
    }

    /// Inserting an entry named `name` leaves every other name's database.
    proof fn lemma_insert_preserves(a: &CorpusStorage, b: &CorpusStorage, p: int, e: CorpusEntry)
        requires
            a.wf(),
            b.wf(),
            0 <= p <= a.corpora@.len(),
            b.corpora@ == a.corpora@.insert(p, e),
        ensures
            forall|x: Seq<char>| x != e.name@ ==> #[trigger] b.db_of(x) == a.db_of(x),
    {
        let ac = a.corpora@;
        let bc = b.corpora@;
        assert forall|i: int| 0 <= i < bc.len() && (#[trigger] bc[i]).name@ != e.name@ implies exists|j: int|
            0 <= j < ac.len() && (#[trigger] ac[j]).name@ == bc[i].name@ && ac[j].db == bc[i].db by {
            if i < p {
                assert(bc[i] == ac[i]);
            } else {
                assert(i != p);
                assert(bc[i] == ac[i - 1]);
            }
        }
        assert forall|j: int| 0 <= j < ac.len() && (#[trigger] ac[j]).name@ != e.name@ implies exists|i: int|
            0 <= i < bc.len() && (#[trigger] bc[i]).name@ == ac[j].name@ by {
            if j < p {
                assert(bc[j] == ac[j]);
            } else {
                assert(bc[j + 1] == ac[j]);
            }
        }
        CorpusStorage::lemma_dbs_preserved(a, b, e.name@);
    }

    /// Mark corpus `name` as just used; its position, when it is registered.
    fn touch(&mut self, name: &str) -> (r: Option<usize>)
        requires
            old(self).wf(),
        ensures
            final(self).wf(),
            final(self).names() == old(self).names(),
            final(self).cache_limit() == old(self).cache_limit(),
            forall|x: Seq<char>| #[trigger] final(self).db_of(x) == old(self).db_of(x),
            r is None <==> !old(self).names().contains(name@),
            r is None ==> old(self).db_of(name@) is None,
            r matches Some(p) ==> (p < final(self).corpora@.len() && final(self).corpora@[p as int].name@ == name@
                && final(self).corpora@[p as int].db == old(self).db_of(name@)),
    {
        let (p, found) = self.locate(name);
        if !found {
            proof {
                assert forall|k: int| 0 <= k < self.names().len() implies self.names()[k] != name@ by {
                    lemma_lex_total(self.corpora@[k].name@, name@);
                }
                self.lemma_db_of(name@);
            }
            return None;
        }
        proof {
            self.lemma_unique_name(p as int);
        }
        self.clock = if self.clock < u64::MAX { self.clock + 1 } else { self.clock };
        let ghost o = self.corpora@;
        self.corpora[p].last_used = self.clock;
        proof {
            let cc = self.corpora@;
            assert forall|k: int| 0 <= k < cc.len() implies cc[k].name == o[k].name && cc[k].db == o[k].db by {}
            assert forall|i: int, j: int| 0 <= i < j < cc.len() implies lex_lt(
                #[trigger] cc[i].name@,
                #[trigger] cc[j].name@,
            ) by {
                assert(lex_lt(o[i].name@, o[j].name@));
            }
            assert(self.names() =~= old(self).names());
            CorpusStorage::lemma_dbs_preserved(old(self), self, name@);
            self.lemma_unique_name(p as int);
            old(self).lemma_unique_name(p as int);
        }
        Some(p)
    }

    /// The number of distinct matches of `query` on corpus `name`, whose
    /// database and the components the query needs must be loaded.
    pub fn count(&mut self, name: &str, query: &Disjunction, config: Config) -> (r: Result<usize, Error>)
        requires
            old(self).wf(),
        ensures
            final(self).wf(),
            final(self).names() == old(self).names(),
            forall|x: Seq<char>| #[trigger] final(self).db_of(x) == old(self).db_of(x),
            final(self).cache_limit() == old(self).cache_limit(),
            r matches Err(Error::ImpossibleSearch(e)) ==> (old(self).db_of(name@) matches Some(db) && e@.len()
                == query.alternatives@.len() && forall|a: int|
                0 <= a < e@.len() ==> #[trigger] e@[a] == crate::plan::plan_error(&db, &query.alternatives@[a])),
            (r matches Err(Error::CorpusNotFound)) <==> !old(self).names().contains(name@),
            (r matches Err(Error::LoadingFailed)) <==> (old(self).names().contains(name@) && old(
                self,
            ).db_of(name@) is None),
            old(self).db_of(name@) matches Some(db) ==> (r is Err <==> forall|a: int|
                0 <= a < query.alternatives@.len() ==> !crate::plan::plannable(
                    &db,
                    #[trigger] &query.alternatives@[a],
                )),
            r matches Ok(n) ==> (old(self).db_of(name@) matches Some(db) && exists|out: Seq<Vec<crate::types::Match>>|
                crate::plan::is_query_result(&db, query.alternatives@, out) && out.len() == n),
    {
        let p = match self.touch(name) {
            None => {
                return Err(Error::CorpusNotFound);
            },
            Some(p) => p,
        };
        match &self.corpora[p].db {
            None => Err(Error::LoadingFailed),
            Some(db) => match ExecutionPlan::from_disjunction(query, db, config) {
                Ok(plan) => Ok(plan.count()),
                Err(crate::plan::Error::ImpossibleSearch(e)) => Err(Error::ImpossibleSearch(e)),
            },
        }
    }

    /// The distinct matches of `query` on corpus `name` from position
    /// `offset` on, at most `limit` of them; the database and the components
    /// the query needs must be loaded.
    pub fn find(
        &mut self,
        name: &str,
        query: &Disjunction,
        config: Config,
        offset: usize,
        limit: usize,
    ) -> (r: Result<Vec<Vec<crate::types::Match>>, Error>)
        requires
            old(self).wf(),
        ensures
            final(self).wf(),
            final(self).names() == old(self).names(),
            forall|x: Seq<char>| #[trigger] final(self).db_of(x) == old(self).db_of(x),
            final(self).cache_limit() == old(self).cache_limit(),
            r matches Err(Error::ImpossibleSearch(e)) ==> (old(self).db_of(name@) matches Some(db) && e@.len()
                == query.alternatives@.len() && forall|a: int|
                0 <= a < e@.len() ==> #[trigger] e@[a] == crate::plan::plan_error(&db, &query.alternatives@[a])),
            (r matches Err(Error::CorpusNotFound)) <==> !old(self).names().contains(name@),
            (r matches Err(Error::LoadingFailed)) <==> (old(self).names().contains(name@) && old(
                self,
            ).db_of(name@) is None),
            old(self).db_of(name@) matches Some(db) ==> (r is Err <==> forall|a: int|
                0 <= a < query.alternatives@.len() ==> !crate::plan::plannable(
                    &db,
                    #[trigger] &query.alternatives@[a],
                )),
            r matches Ok(rows) ==> (old(self).db_of(name@) matches Some(db) && exists|out: Seq<Vec<crate::types::Match>>|
                #[trigger] crate::plan::is_query_result(&db, query.alternatives@, out)
                    && rows@.map_values(|v: Vec<crate::types::Match>| v@) == crate::plan::page_of(
                    out,
                    offset as int,
                    limit as int,
                )),
    {
        let p = match self.touch(name) {
            None => {
                return Err(Error::CorpusNotFound);
            },
            Some(p) => p,
        };
        match &self.corpora[p].db {
            None => Err(Error::LoadingFailed),
            Some(db) => match ExecutionPlan::from_disjunction(query, db, config) {
                Ok(plan) => Ok(plan.page(offset, limit)),
                Err(crate::plan::Error::ImpossibleSearch(e)) => Err(Error::ImpossibleSearch(e)),
            },
        }
    }

    /// When corpus `name` was last used; `0` when it is unknown.
    pub closed spec fn stamp(&self, name: Seq<char>) -> u64 {
        if exists|i: int| 0 <= i < self.corpora@.len() && self.corpora@[i].name@ == name {
            let i = choose|i: int| 0 <= i < self.corpora@.len() && self.corpora@[i].name@ == name;
            self.corpora@[i].last_used
        } else {
            0
        }
    }

    /// How many corpora may stay loaded, when limited.
    pub closed spec fn cache_limit(&self) -> Option<usize> {
        self.max_allowed_cache_size
    }

    /// How many corpora are loaded.
    pub closed spec fn num_loaded(&self) -> nat {
        loaded_count(self.corpora@)
    }

    /// The entry at `i` is the one whose stamp its name gives.
    proof fn lemma_stamp(&self, i: int)
        requires
            self.wf(),
            0 <= i < self.corpora@.len(),
        ensures
            self.stamp(self.corpora@[i].name@) == self.corpora@[i].last_used,
    {
        let name = self.corpora@[i].name@;
        self.lemma_unique_name(i);
        assert(exists|k: int| 0 <= k < self.corpora@.len() && self.corpora@[k].name@ == name);
        assert forall|k: int| 0 <= k < self.corpora@.len() && self.corpora@[k].name@ == name implies k == i by {
            lemma_lex_total(name, name);
            if k < i {
                assert(lex_lt(self.corpora@[k].name@, self.corpora@[i].name@));
            } else if k > i {
                assert(lex_lt(self.corpora@[i].name@, self.corpora@[k].name@));
            }
        }
    }

    /// Unload the loaded corpus that was used least recently; `false` when
    /// none is loaded.
    pub fn evict_least_recently_used(&mut self) -> (r: bool)
        requires
            old(self).wf(),
        ensures
            final(self).wf(),
            final(self).names() == old(self).names(),
            final(self).cache_limit() == old(self).cache_limit(),
            r <==> old(self).num_loaded() > 0,
            r ==> final(self).num_loaded() == old(self).num_loaded() - 1,
            !r ==> final(self).num_loaded() == old(self).num_loaded(),
            forall|x: Seq<char>| final(self).db_of(x) is Some ==> final(self).db_of(x) == old(self).db_of(x),
            r ==> exists|x: Seq<char>|
                old(self).db_of(x) is Some && final(self).db_of(x) is None && forall|y: Seq<char>|
                    #![trigger old(self).db_of(y)]
                    y != x ==> final(self).db_of(y) == old(self).db_of(y) && (old(self).db_of(y) is Some
                        ==> old(self).stamp(x) <= old(self).stamp(y)),
    {
        let mut best: Option<usize> = None;
        let mut i: usize = 0;
        while i < self.corpora.len()
            invariant
                i <= self.corpora@.len(),
                best matches Some(b) ==> (b < i && self.corpora@[b as int].db is Some && forall|k: int|
                    0 <= k < i && (#[trigger] self.corpora@[k]).db is Some ==> self.corpora@[b as int].last_used
                        <= self.corpora@[k].last_used),
                best is None ==> forall|k: int| 0 <= k < i ==> (#[trigger] self.corpora@[k]).db is None,
            decreases self.corpora@.len() - i,
        {
            if self.corpora[i].db.is_some() {
                match best {
                    None => {
                        best = Some(i);
                    },
                    Some(b) => {
                        if self.corpora[i].last_used < self.corpora[b].last_used {
                            best = Some(i);
                        }
                    },
                }
            }
            i += 1;
        }
        match best {
            None => {
                proof {
                    lemma_count_zero(self.corpora@);
                }
                false
            },
            Some(b) => {
                let ghost o = self.corpora@;
                let e = CorpusEntry {
                    name: self.corpora[b].name.clone(),
                    db: None,
                    last_used: self.corpora[b].last_used,
                };
                self.corpora.set(b, e);
                proof {
                    let cc = self.corpora@;
                    lemma_count_update(o, b as int, cc[b as int]);
                    assert(cc == o.update(b as int, cc[b as int]));
                    assert forall|k: int| 0 <= k < cc.len() implies cc[k].name == o[k].name by {}
                    assert forall|i: int, j: int| 0 <= i < j < cc.len() implies lex_lt(
                        #[trigger] cc[i].name@,
                        #[trigger] cc[j].name@,
                    ) by {
                        assert(lex_lt(o[i].name@, o[j].name@));
                    }
                    assert forall|i: int| 0 <= i < cc.len() && (#[trigger] cc[i]).db is Some implies cc[i].db->Some_0.wf() by {
                        assert(cc[i] == o[i]);
                    }
                    assert(self.names() =~= old(self).names()) by {
                        assert forall|k: int| 0 <= k < cc.len() implies self.names()[k] == old(self).names()[k] by {}
                    }
                    let x = o[b as int].name@;
                    old(self).lemma_unique_name(b as int);
                    self.lemma_unique_name(b as int);
                    old(self).lemma_stamp(b as int);
                    assert forall|y: Seq<char>|
                        #![trigger old(self).db_of(y)]
                        y != x implies self.db_of(y) == old(self).db_of(y) && (old(self).db_of(y) is Some
                            ==> old(self).stamp(x) <= old(self).stamp(y)) by {
                        if exists|k: int| 0 <= k < cc.len() && cc[k].name@ == y {
                            let k = choose|k: int| 0 <= k < cc.len() && cc[k].name@ == y;
                            self.lemma_unique_name(k);
                            old(self).lemma_unique_name(k);
                            old(self).lemma_stamp(k);
                            assert(k != b);
                            assert(cc[k] == o[k]);
                        } else {
                            assert forall|k: int| 0 <= k < o.len() implies o[k].name@ != y by {
                                assert(cc[k].name == o[k].name);
                            }
                        }
                    }
                    assert forall|y: Seq<char>| self.db_of(y) is Some implies self.db_of(y) == old(self).db_of(y) by {
                        if y == x {
                        } else {
                            assert(self.db_of(y) == old(self).db_of(y));
                        }
                    }
                }
                true
            },
        }
    }

    /// Unload least recently used corpora until no more than the allowed
    /// number is loaded.
    pub fn enforce_cache_size(&mut self)
        requires
            old(self).wf(),
        ensures
            final(self).wf(),
            final(self).names() == old(self).names(),
            forall|x: Seq<char>| final(self).db_of(x) is Some ==> final(self).db_of(x) == old(self).db_of(x),
            old(self).cache_limit() matches Some(m) ==> final(self).num_loaded() == if old(self).num_loaded() <= m {
                old(self).num_loaded()
            } else {
                m as nat
            },
            old(self).cache_limit() is None ==> final(self).num_loaded() == old(self).num_loaded(),
            final(self).cache_limit() == old(self).cache_limit(),
    {
        match self.max_allowed_cache_size {
            None => {},
            Some(m) => {
                while self.count_loaded() > m
                    invariant
                        self.wf(),
                        self.names() == old(self).names(),
                        self.max_allowed_cache_size == old(self).max_allowed_cache_size,
                        forall|x: Seq<char>| self.db_of(x) is Some ==> self.db_of(x) == old(self).db_of(x),
                        old(self).cache_limit() == Some(m),
                        old(self).num_loaded() <= m ==> self.num_loaded() == old(self).num_loaded(),
                        old(self).num_loaded() > m ==> self.num_loaded() >= m,
                    decreases self.num_loaded(),
                {
                    self.evict_least_recently_used();
                }
            },
        }
    }

    /// How many corpora are loaded.
    pub fn count_loaded(&self) -> (r: usize)
        ensures
            r == self.num_loaded(),
    {
        let mut n: usize = 0;
        let mut i: usize = 0;
        while i < self.corpora.len()
            invariant
                i <= self.corpora@.len(),
                n == loaded_count(self.corpora@.take(i as int)),
                n <= i,
            decreases self.corpora@.len() - i,
        {
            assert(self.corpora@.take(i + 1).drop_last() =~= self.corpora@.take(i as int));
            if self.corpora[i].db.is_some() {
                n += 1;
            }
            i += 1;
        }
        assert(self.corpora@.take(i as int) =~= self.corpora@);
        n
    }
}

/// How many entries of `s` hold a loaded database.
pub open spec fn loaded_count(s: Seq<CorpusEntry>) -> nat
    decreases s.len(),
{
    if s.len() == 0 {
        0
    } else {
        loaded_count(s.drop_last()) + if s.last().db is Some {
            1nat
        } else {
            0nat
        }
    }
}

/// Without loaded entries the count is zero, and with one it is not.
proof fn lemma_count_zero(s: Seq<CorpusEntry>)
    ensures
        (loaded_count(s) == 0) <==> forall|k: int| 0 <= k < s.len() ==> (#[trigger] s[k]).db is None,
    decreases s.len(),
{
    if s.len() > 0 {
        lemma_count_zero(s.drop_last());
        assert forall|k: int| 0 <= k < s.len() - 1 implies s.drop_last()[k] == #[trigger] s[k] by {}
    }
}

/// Replacing one entry changes the count by what the two entries hold.
proof fn lemma_count_update(s: Seq<CorpusEntry>, i: int, e: CorpusEntry)
    requires
        0 <= i < s.len(),
    ensures
        loaded_count(s.update(i, e)) + (if s[i].db is Some {
            1nat
        } else {
            0nat
        }) == loaded_count(s) + (if e.db is Some {
            1nat
        } else {
            0nat
        }),
    decreases s.len(),
{
    let u = s.update(i, e);
    if i < s.len() - 1 {
        lemma_count_update(s.drop_last(), i, e);
        assert(u.drop_last() =~= s.drop_last().update(i, e));
    } else {
        assert(u.drop_last() =~= s.drop_last());
    }
}

} // verus!
