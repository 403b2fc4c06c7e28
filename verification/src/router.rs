//! A small exact-path router: paths registered with a handler id,
//! looked up by equality; registering a bound path again replaces
//! its handler. The caller keeps its own table from ids to handler
//! functions; the registry only decides which id a path is bound to.

use vstd::prelude::*;

verus! {

pub struct Router {
    routes: Vec<(String, usize)>,
}

/// The mathematical map that the registered bindings denote, later
/// registrations overriding earlier ones.
pub open spec fn bindings_map(s: Seq<(String, usize)>) -> Map<Seq<char>, usize>
    decreases s.len(),
{
    if s.len() == 0 {
        Map::empty()
    } else {
        bindings_map(s.drop_last()).insert(s.last().0@, s.last().1)
    }
}

pub open spec fn binding_paths_unique(s: Seq<(String, usize)>) -> bool {
    forall|i: int, j: int| 0 <= i < j < s.len() ==> s[i].0@ != s[j].0@
}

/// A path is bound exactly when some pair holds it; under unique
/// paths the id is that pair's.
proof fn lemma_bindings_contains(s: Seq<(String, usize)>, k: Seq<char>)
    ensures
        bindings_map(s).contains_key(k) <==> exists|i: int| 0 <= i < s.len() && s[i].0@ == k,
        binding_paths_unique(s) ==> forall|i: int|
            0 <= i < s.len() && s[i].0@ == k ==> bindings_map(s)[k] == s[i].1,
    decreases s.len(),
{
    if s.len() > 0 {
        lemma_bindings_contains(s.drop_last(), k);
        assert(forall|i: int| 0 <= i < s.len() - 1 ==> s.drop_last()[i] == s[i]);
        if bindings_map(s).contains_key(k) {
            if s.last().0@ != k {
                assert(bindings_map(s.drop_last()).contains_key(k));
            } else {
                assert(s[s.len() - 1].0@ == k);
            }
        }
        if exists|i: int| 0 <= i < s.len() && s[i].0@ == k {
            let i = choose|i: int| 0 <= i < s.len() && s[i].0@ == k;
            if i < s.len() - 1 {
                assert(s.drop_last()[i].0@ == k);
            }
        }
    }
}

/// Replacing the pair that holds `k` updates the map at `k`.
proof fn lemma_bindings_update(s: Seq<(String, usize)>, i: int, p: (String, usize))
    requires
        binding_paths_unique(s),
        0 <= i < s.len(),
        s[i].0@ == p.0@,
    ensures
        bindings_map(s.update(i, p)) =~= bindings_map(s).insert(p.0@, p.1),
    decreases s.len(),
{
    let t = s.update(i, p);
    assert(forall|m: int| 0 <= m < s.len() - 1 ==> s.drop_last()[m] == s[m]);
    if i == s.len() - 1 {
        assert(t.drop_last() =~= s.drop_last());
        assert(t.last() == p);
        lemma_bindings_contains(s.drop_last(), s[i].0@);
        assert(!bindings_map(s.drop_last()).contains_key(s[i].0@));
        assert(bindings_map(t) =~= bindings_map(s.drop_last()).insert(p.0@, p.1));
        assert(bindings_map(s) =~= bindings_map(s.drop_last()).insert(
            s.last().0@,
            s.last().1,
        ));
    } else {
        assert(t.drop_last() =~= s.drop_last().update(i, p));
        assert(t.last() == s.last());
        lemma_bindings_update(s.drop_last(), i, p);
        assert(s.last().0@ != p.0@);
    }
}

impl Router {
    /// The map from registered paths to their current handler ids.
    pub closed spec fn view(&self) -> Map<Seq<char>, usize> {
        bindings_map(self.routes@)
    }

    pub closed spec fn wf(&self) -> bool {
        binding_paths_unique(self.routes@)
    }

    pub fn new() -> (r: Router)
        ensures
            r.wf(),
            r@ == Map::<Seq<char>, usize>::empty(),
    {
        Router { routes: Vec::new() }
    }

    fn find_index(&self, path: &str) -> (r: Option<usize>)
        ensures
            match r {
                Some(i) => i < self.routes@.len() && self.routes@[i as int].0@ == path@,
                None => forall|i: int|
                    0 <= i < self.routes@.len() ==> self.routes@[i].0@ != path@,
            },
    {
        let mut i: usize = 0;
        while i < self.routes.len()
            invariant
                0 <= i <= self.routes@.len(),
                forall|m: int| 0 <= m < i ==> self.routes@[m].0@ != path@,
            decreases self.routes@.len() - i,
        {
            if crate::strutil::str_eq(self.routes[i].0.as_str(), path) {
                return Some(i);
            }
            i = i + 1;
        }
        None
    }

    /// Binds the path to a handler id; registering a bound path again
    /// replaces its handler, as a map insert does.
    pub fn handle(&mut self, path: &str, handler: usize)
        requires
            old(self).wf(),
        ensures
            final(self).wf(),
            final(self)@ == old(self)@.insert(path@, handler),
    {
        let pair = (String::from_str(path), handler);
        match self.find_index(path) {
            Some(i) => {
                proof {
                    lemma_bindings_update(self.routes@, i as int, pair);
                }
                self.routes.set(i, pair);
                assert(binding_paths_unique(self.routes@)) by {
                    assert(forall|m: int|
                        0 <= m < self.routes@.len() && m != i ==> self.routes@[m] == old(
                            self,
                        ).routes@[m]);
                }
            },
            None => {
                self.routes.push(pair);
                proof {
                    assert(self.routes@.drop_last() =~= old(self).routes@);
                    assert(binding_paths_unique(self.routes@)) by {
                        assert(forall|m: int|
                            0 <= m < self.routes@.len() - 1 ==> self.routes@[m] == old(
                                self,
                            ).routes@[m]);
                    }
                }
            },
        }
    }

    /// The handler id the path is currently bound to: the most recent
    /// registration under exactly this path, or nothing.
    pub fn route(&self, path: &str) -> (r: Option<usize>)
        requires
            self.wf(),
        ensures
            match r {
                Some(h) => self@.contains_key(path@) && h == self@[path@],
                None => !self@.contains_key(path@),
            },
    {
        proof {
            lemma_bindings_contains(self.routes@, path@);
        }
        match self.find_index(path) {
            Some(i) => Some(self.routes[i].1),
            None => None,
        }
    }
}

} // verus!
