//! Interning of strings to small integer identifiers.

use vstd::prelude::*;
use crate::types::StringID;

verus! {

/// No string occurs twice in the pool.
pub open spec fn distinct_strings(p: Seq<Seq<char>>) -> bool {
    forall|i: int, j: int|
        0 <= i < p.len() && 0 <= j < p.len() && #[trigger] p[i] == #[trigger] p[j] ==> i == j
}

/// `s` is held in the pool.
pub open spec fn holds(p: Seq<Seq<char>>, s: Seq<char>) -> bool {
    exists|i: int| 0 <= i < p.len() && p[i] == s
}

/// The pool and the identifier that interning `s` into `p` gives: the existing
/// identifier when `s` is already held, otherwise a new one at the end.
pub open spec fn spec_add(p: Seq<Seq<char>>, s: Seq<char>) -> (Seq<Seq<char>>, int) {
    if holds(p, s) {
        (p, choose|i: int| 0 <= i < p.len() && p[i] == s)
    } else {
        (p.push(s), p.len() as int)
    }
}

/// Interning round trip: the string stored under the identifier that `add`
/// returns is the string that was added, and adding the same string again
/// changes nothing and returns the same identifier.
pub proof fn lemma_intern_round_trip(p: Seq<Seq<char>>, s: Seq<char>)
    requires
        distinct_strings(p),
    ensures
        0 <= spec_add(p, s).1 < spec_add(p, s).0.len(),
        spec_add(p, s).0[spec_add(p, s).1] == s,
        spec_add(spec_add(p, s).0, s) == spec_add(p, s),
        distinct_strings(spec_add(p, s).0),
{
    let q = spec_add(p, s).0;
    if !holds(p, s) {
        assert(q[p.len() as int] == s);
        assert(holds(q, s));
        assert forall|i: int, j: int|
            0 <= i < q.len() && 0 <= j < q.len() && #[trigger] q[i] == #[trigger] q[j] implies i
                == j by {
            if i < p.len() && j < p.len() {
                assert(p[i] == p[j]);
            } else if i < p.len() {
                assert(p[i] == s);
            } else if j < p.len() {
                assert(p[j] == s);
            }
        }
    }
}

/// A bidirectional map between strings and identifiers.
pub struct StringPool {
    strings: Vec<String>,
}

impl StringPool {
    /// The interned strings, indexed by identifier.
    pub closed spec fn view(&self) -> Seq<Seq<char>> {
        self.strings@.map_values(|s: String| s@)
    }

    /// Identifier `0` stands for the empty string and no string is held twice.
    pub open spec fn wf(&self) -> bool {
        &&& self@.len() > 0
        &&& self@[0] == Seq::<char>::empty()
        &&& distinct_strings(self@)
    }

    /// A pool that holds only the empty string.
    pub fn new() -> (r: StringPool)
        ensures
            r.wf(),
            r@ == seq![Seq::<char>::empty()],
    {
        let mut strings: Vec<String> = Vec::new();
        strings.push(String::new());
        let r = StringPool { strings };
        assert(r@ =~= seq![Seq::<char>::empty()]);
        r
    }

    /// Number of interned strings.
    pub fn len(&self) -> (r: usize)
        ensures
            r == self@.len(),
    {
        self.strings.len()
    }

    /// The identifier of `s`, if it is interned.
    pub fn find_id(&self, s: &str) -> (r: Option<StringID>)
        requires
            self.wf(),
        ensures
            r.is_some() <==> holds(self@, s@),
            r matches Some(id) ==> id < self@.len() && self@[id as int] == s@,
    {
        let target = s.to_string();
        let mut i: usize = 0;
        while i < self.strings.len()
            invariant
                i <= self.strings@.len(),
                self@.len() == self.strings@.len(),
                target@ == s@,
                forall|k: int| 0 <= k < i ==> self@[k] != s@,
            decreases self.strings@.len() - i,
        {
            if self.strings[i] == target {
                assert(self@[i as int] == s@);
                return Some(i);
            }
            i += 1;
        }
        None
    }

    /// Intern `s`: equal strings always get the same identifier.
    pub fn add(&mut self, s: &str) -> (r: StringID)
        requires
            old(self).wf(),
        ensures
            final(self).wf(),
            (final(self)@, r as int) == spec_add(old(self)@, s@),
            r < final(self)@.len(),
            final(self)@[r as int] == s@,
            old(self)@.is_prefix_of(final(self)@),
    {
        proof {
            lemma_intern_round_trip(self@, s@);
        }
        match self.find_id(s) {
            Some(id) => id,
            None => {
                let id = self.strings.len();
                self.strings.push(s.to_string());
                assert(self@ =~= old(self)@.push(s@));
                id
            },
        }
    }

    /// The string interned under `id`; `None` for an unknown identifier.
    pub fn str(&self, id: StringID) -> (r: Option<&String>)
        ensures
            r.is_some() <==> id < self@.len(),
            r matches Some(v) ==> v@ == self@[id as int],
    {
        if id < self.strings.len() {
            Some(&self.strings[id])
        } else {
            None
        }
    }
}

} // verus!
