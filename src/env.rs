//! Environments: the bindings of names to values that evaluation reads and
//! writes.

use vstd::prelude::*;

use crate::expr::{Expr, ExprV};

verus! {

/// The map that a sequence of bindings makes, later bindings of a name
/// replacing earlier ones.
pub open spec fn bindings(s: Seq<(String, Expr)>) -> Map<Seq<char>, ExprV>
    decreases s.len(),
{
    if s.len() == 0 {
        Map::empty()
    } else {
        bindings(s.drop_last()).insert(s.last().0@, s.last().1@)
    }
}

proof fn lemma_bindings_push(s: Seq<(String, Expr)>, e: (String, Expr))
    ensures
        bindings(s.push(e)) == bindings(s).insert(e.0@, e.1@),
{
    assert(s.push(e).drop_last() =~= s);
}

proof fn lemma_bindings_update(s: Seq<(String, Expr)>, idx: int, e: (String, Expr))
    requires
        0 <= idx < s.len(),
        s[idx].0@ == e.0@,
        forall|j: int| idx < j < s.len() ==> (#[trigger] s[j]).0@ != e.0@,
    ensures
        bindings(s.update(idx, e)) == bindings(s).insert(e.0@, e.1@),
    decreases s.len(),
{
    let u = s.update(idx, e);
    if idx == s.len() - 1 {
        assert(u.drop_last() =~= s.drop_last());
        assert(bindings(u) =~= bindings(s).insert(e.0@, e.1@));
    } else {
        assert(u.drop_last() =~= s.drop_last().update(idx, e));
        lemma_bindings_update(s.drop_last(), idx, e);
        assert(s.last().0@ != e.0@);
        assert(bindings(u) =~= bindings(s).insert(e.0@, e.1@));
    }
}

/// A set of bindings from names to values; a name is bound at most once.
///
/// The bindings are a vector of pairs, modelled as a map. vstd specifies
/// `HashMap` only for key types it takes to hash and compare
/// deterministically (integers, `bool` and boxes of them); for `String`
/// keys that would have to be assumed, and assumptions are not used here.
pub struct Env {
    entries: Vec<(String, Expr)>,
}

impl View for Env {
    type V = Map<Seq<char>, ExprV>;

    closed spec fn view(&self) -> Map<Seq<char>, ExprV> {
        bindings(self.entries@)
    }
}

impl Env {
    /// An environment with no bindings.
    pub fn new() -> (r: Env)
        ensures
            r@ == Map::<Seq<char>, ExprV>::empty(),
    {
        Env { entries: Vec::new() }
    }

    /// The last position bound to `name`, if any.
    fn position(&self, name: &String) -> (r: Option<usize>)
        ensures
            match r {
                Some(i) => {
                    &&& i < self.entries@.len()
                    &&& self.entries@[i as int].0@ == name@
                    &&& forall|j: int|
                        i < j < self.entries@.len() ==> (#[trigger] self.entries@[j]).0@
                            != name@
                    &&& self@.contains_key(name@)
                    &&& self@[name@] == self.entries@[i as int].1@
                },
                None => !self@.contains_key(name@),
            },
    {
        let ghost s = self.entries@;
        let mut i: usize = self.entries.len();
        assert(s.take(i as int) =~= s);
        while i > 0
            invariant
                i <= s.len(),
                s == self.entries@,
                forall|j: int| i <= j < s.len() ==> (#[trigger] s[j]).0@ != name@,
                bindings(s.take(i as int)).contains_key(name@) == bindings(s).contains_key(
                    name@,
                ),
                bindings(s).contains_key(name@) ==> bindings(s.take(i as int))[name@]
                    == bindings(s)[name@],
            decreases i,
        {
            assert(s.take(i as int).drop_last() =~= s.take(i - 1));
            if self.entries[i - 1].0.eq(name) {
                return Some(i - 1);
            }
            i = i - 1;
        }
        assert(s.take(0) =~= Seq::<(String, Expr)>::empty());
        None
    }

    /// The value bound to `name`, if any.
    pub fn lookup(&self, name: &String) -> (r: Option<&Expr>)
        ensures
            match r {
                Some(e) => self@.contains_key(name@) && e@ == self@[name@],
                None => !self@.contains_key(name@),
            },
    {
        match self.position(name) {
            Some(i) => Some(&self.entries[i].1),
            None => None,
        }
    }

    /// The value bound to `name`, if any.
    pub fn get(&self, name: &str) -> (r: Option<&Expr>)
        ensures
            match r {
                Some(e) => self@.contains_key(name@) && e@ == self@[name@],
                None => !self@.contains_key(name@),
            },
    {
        self.lookup(&String::from_str(name))
    }

    /// Binds `name` to `value`, replacing any earlier binding of it.
    pub fn insert(&mut self, name: String, value: Expr)
        ensures
            final(self)@ == old(self)@.insert(name@, value@),
    {
        match self.position(&name) {
            Some(i) => {
                proof {
                    lemma_bindings_update(self.entries@, i as int, (name, value));
                }
                self.entries.set(i, (name, value));
            },
            None => {
                proof {
                    lemma_bindings_push(self.entries@, (name, value));
                }
                self.entries.push((name, value));
            },
        }
    }

    /// A copy of the environment, with the same bindings.
    pub fn copy(&self) -> (r: Env)
        ensures
            r@ == self@,
    {
        let ghost s = self.entries@;
        let mut out: Vec<(String, Expr)> = Vec::new();
        let mut i: usize = 0;
        while i < self.entries.len()
            invariant
                i <= s.len(),
                s == self.entries@,
                bindings(out@) == bindings(s.take(i as int)),
            decreases s.len() - i,
        {
            let name = self.entries[i].0.clone();
            let value = self.entries[i].1.copy();
            proof {
                lemma_bindings_push(out@, (name, value));
                assert(s.take(i + 1).drop_last() =~= s.take(i as int));
            }
            out.push((name, value));
            i = i + 1;
        }
        assert(s.take(s.len() as int) =~= s);
        Env { entries: out }
    }
}

} // verus!
