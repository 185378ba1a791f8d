//! A binding layer: chords, each a key with its modifiers, and the actions
//! they are bound to. A chord is looked up by its first entry, so a layer
//! reads as a map from chords to actions.

use vstd::prelude::*;
use crate::keyspec::{Key, KeyView, Mods};
use crate::keymap::Action;

verus! {

/// A chord as the contracts see it: a key and its modifiers.
pub open spec fn chord_of(e: (Key, Mods, Action)) -> (KeyView, Mods) {
    (e.0@, e.1)
}

/// What the first entry of `es` bound to chord `c` binds it to.
pub open spec fn lookup(es: Seq<(Key, Mods, Action)>, c: (KeyView, Mods)) -> Option<Action>
    decreases es.len(),
{
    if es.len() == 0 {
        None
    } else if chord_of(es[0]) == c {
        Some(es[0].2)
    } else {
        lookup(es.drop_first(), c)
    }
}

/// The map a list of bindings reads as.
pub open spec fn layer_map(es: Seq<(Key, Mods, Action)>) -> Map<(KeyView, Mods), Action> {
    Map::new(|c: (KeyView, Mods)| lookup(es, c) is Some, |c: (KeyView, Mods)| lookup(es, c)->0)
}

/// A layer with each chord held without `Shift` also bound with `Shift`,
/// where that chord is not bound already.
pub open spec fn fill_shifted(m: Map<(KeyView, Mods), Action>) -> Map<(KeyView, Mods), Action> {
    Map::new(
        |c: (KeyView, Mods)| m.contains_key(c) || (c.1.shift && m.contains_key((c.0, Mods { shift: false, ..c.1 }))),
        |c: (KeyView, Mods)|
            if m.contains_key(c) {
                m[c]
            } else {
                m[(c.0, Mods { shift: false, ..c.1 })]
            },
    )
}

/// [`fill_shifted`] over the first `i` bindings of `es` only.
spec fn fill_upto(m0: Map<(KeyView, Mods), Action>, es: Seq<(Key, Mods, Action)>, i: int) -> Map<
    (KeyView, Mods),
    Action,
> {
    Map::new(
        |c: (KeyView, Mods)|
            m0.contains_key(c) || (c.1.shift && lookup(es.take(i), (c.0, Mods { shift: false, ..c.1 })) is Some),
        |c: (KeyView, Mods)|
            if m0.contains_key(c) {
                m0[c]
            } else {
                lookup(es.take(i), (c.0, Mods { shift: false, ..c.1 }))->0
            },
    )
}

/// The chords of a list of bindings.
pub open spec fn chord_set(es: Seq<(Key, Mods)>) -> Set<(KeyView, Mods)> {
    Set::new(|c: (KeyView, Mods)| exists|i: int| 0 <= i < es.len() && (es[i].0@, es[i].1) == c)
}

proof fn lemma_lookup_push(es: Seq<(Key, Mods, Action)>, e: (Key, Mods, Action), c: (KeyView, Mods))
    ensures
        lookup(es.push(e), c) == (match lookup(es, c) {
            Some(a) => Some(a),
            None => if chord_of(e) == c {
                Some(e.2)
            } else {
                None
            },
        }),
    decreases es.len(),
{
    if es.len() > 0 {
        assert(es.push(e).drop_first() =~= es.drop_first().push(e));
        assert(es.push(e)[0] == es[0]);
        lemma_lookup_push(es.drop_first(), e, c);
        if chord_of(es[0]) == c {
            assert(lookup(es.push(e), c) == Some(es[0].2));
            assert(lookup(es, c) == Some(es[0].2));
        } else {
            assert(lookup(es.push(e), c) == lookup(es.drop_first().push(e), c));
            assert(lookup(es, c) == lookup(es.drop_first(), c));
        }
    } else {
        assert(es.push(e).drop_first() =~= Seq::<(Key, Mods, Action)>::empty());
        assert(es.push(e)[0] == e);
        assert(lookup(es.push(e).drop_first(), c) is None);
    }
}

proof fn lemma_lookup_update(es: Seq<(Key, Mods, Action)>, i: int, e: (Key, Mods, Action), c: (KeyView, Mods))
    requires
        0 <= i < es.len(),
        chord_of(es[i]) == chord_of(e),
        forall|j: int| 0 <= j < i ==> chord_of(es[j]) != chord_of(e),
    ensures
        lookup(es.update(i, e), c) == if c == chord_of(e) {
            Some(e.2)
        } else {
            lookup(es, c)
        },
    decreases es.len(),
{
    if i > 0 {
        assert(es.update(i, e).drop_first() =~= es.drop_first().update(i - 1, e));
        assert forall|j: int| 0 <= j < i - 1 implies chord_of(es.drop_first()[j]) != chord_of(e) by {
            assert(es.drop_first()[j] == es[j + 1]);
        }
        lemma_lookup_update(es.drop_first(), i - 1, e, c);
    } else {
        assert(es.update(i, e).drop_first() =~= es.drop_first());
    }
}

/// `a` and `b` are the same key.
pub fn key_eq(a: &Key, b: &Key) -> (r: bool)
    ensures
        r == (a@ == b@),
{
    match (a, b) {
        (Key::Named(x), Key::Named(y)) => *x == *y,
        (Key::Character(x), Key::Character(y)) => crate::text::str_eq(x.as_str(), y.as_str()),
        (Key::Unidentified, Key::Unidentified) => true,
        _ => false,
    }
}

/// A copy of `k`.
pub fn copy_key(k: &Key) -> (r: Key)
    ensures
        r@ == k@,
{
    match k {
        Key::Named(n) => Key::Named(*n),
        Key::Character(s) => Key::Character(s.clone()),
        Key::Unidentified => Key::Unidentified,
    }
}

/// A binding layer, read as a map from chords to actions ([`layer_map`]).
pub struct Layer {
    entries: Vec<(Key, Mods, Action)>,
}

impl View for Layer {
    type V = Map<(KeyView, Mods), Action>;

    closed spec fn view(&self) -> Map<(KeyView, Mods), Action> {
        layer_map(self.entries@)
    }
}

impl Layer {
    /// An empty layer.
    pub fn new() -> (r: Layer)
        ensures
            r@ == Map::<(KeyView, Mods), Action>::empty(),
    {
        let r = Layer { entries: Vec::new() };
        assert(r@ =~= Map::<(KeyView, Mods), Action>::empty());
        r
    }

    fn find(&self, k: &Key, m: Mods) -> (r: Option<usize>)
        ensures
            match r {
                Some(i) => i < self.entries@.len() && chord_of(self.entries@[i as int]) == (k@, m) && forall|
                    j: int,
                | 0 <= j < i ==> chord_of(self.entries@[j]) != (k@, m),
                None => lookup(self.entries@, (k@, m)) is None,
            },
            r is Some ==> lookup(self.entries@, (k@, m)) == Some(self.entries@[r->0 as int].2),
    {
        let mut i: usize = 0;
        assert(self.entries@.skip(0) =~= self.entries@);
        while i < self.entries.len()
            invariant
                0 <= i <= self.entries@.len(),
                forall|j: int| 0 <= j < i ==> chord_of(self.entries@[j]) != (k@, m),
                lookup(self.entries@, (k@, m)) == lookup(self.entries@.skip(i as int), (k@, m)),
            decreases self.entries.len() - i,
        {
            let hit = key_eq(&self.entries[i].0, k) && self.entries[i].1 == m;
            proof {
                assert(self.entries@.skip(i as int)[0] == self.entries@[i as int]);
                assert(self.entries@.skip(i as int).drop_first() =~= self.entries@.skip(i + 1));
            }
            if hit {
                return Some(i);
            }
            i += 1;
        }
        None
    }

    /// The action chord `(k, m)` is bound to, if any.
    pub fn get(&self, k: &Key, m: Mods) -> (r: Option<Action>)
        ensures
            r == (if self@.contains_key((k@, m)) {
                Some(self@[(k@, m)])
            } else {
                None::<Action>
            }),
    {
        match self.find(k, m) {
            Some(i) => Some(self.entries[i].2),
            None => None,
        }
    }

    /// Whether some chord of this layer has key `k` and `Alt` held.
    pub fn has_alt_chord(&self, k: &Key) -> (r: bool)
        ensures
            r == exists|m: Mods| m.alt && #[trigger] self@.contains_key((k@, m)),
    {
        let mut i: usize = 0;
        while i < self.entries.len()
            invariant
                0 <= i <= self.entries@.len(),
                forall|j: int| 0 <= j < i ==> !(self.entries@[j].0@ == k@ && self.entries@[j].1.alt),
            decreases self.entries.len() - i,
        {
            if key_eq(&self.entries[i].0, k) && self.entries[i].1.alt {
                proof {
                    let m = self.entries@[i as int].1;
                    self.lemma_bound((k@, m), i as int);
                    assert(self@.contains_key((k@, m)));
                }
                return true;
            }
            i += 1;
        }
        proof {
            assert forall|m: Mods| m.alt implies !#[trigger] self@.contains_key((k@, m)) by {
                if self@.contains_key((k@, m)) {
                    let j = self.lemma_bound_at((k@, m));
                }
            }
        }
        false
    }

    proof fn lemma_bound(&self, c: (KeyView, Mods), i: int)
        requires
            0 <= i < self.entries@.len(),
            chord_of(self.entries@[i]) == c,
        ensures
            self@.contains_key(c),
    {
        lemma_lookup_some(self.entries@, c, i);
    }

    proof fn lemma_bound_at(&self, c: (KeyView, Mods)) -> (i: int)
        requires
            self@.contains_key(c),
        ensures
            0 <= i < self.entries@.len(),
            chord_of(self.entries@[i]) == c,
    {
        lemma_lookup_index(self.entries@, c)
    }

    /// Bind chord `(k, m)` to `a`, replacing what it was bound to.
    pub fn insert(&mut self, k: Key, m: Mods, a: Action)
        ensures
            final(self)@ == old(self)@.insert((k@, m), a),
    {
        let ghost c = (k@, m);
        match self.find(&k, m) {
            Some(i) => {
                let ghost es = self.entries@;
                self.entries.set(i, (k, m, a));
                proof {
                    assert forall|d: (KeyView, Mods)| #![auto] lookup(self.entries@, d) == (if d == c {
                        Some(a)
                    } else {
                        lookup(es, d)
                    }) by {
                        lemma_lookup_update(es, i as int, self.entries@[i as int], d);
                    }
                }
            },
            None => {
                let ghost es = self.entries@;
                self.entries.push((k, m, a));
                proof {
                    assert forall|d: (KeyView, Mods)| #![auto] lookup(self.entries@, d) == (if d == c {
                        Some(a)
                    } else {
                        lookup(es, d)
                    }) by {
                        lemma_lookup_push(es, self.entries@.last(), d);
                    }
                }
            },
        }
        assert(self@ =~= old(self)@.insert(c, a));
    }

    /// Bind chord `(k, m)` to `a` unless it is bound already.
    pub fn insert_absent(&mut self, k: Key, m: Mods, a: Action)
        ensures
            final(self)@ == (if old(self)@.contains_key((k@, m)) {
                old(self)@
            } else {
                old(self)@.insert((k@, m), a)
            }),
    {
        self.push_absent(k, m, a);
    }

    fn push_absent(&mut self, k: Key, m: Mods, a: Action)
        ensures
            final(self)@ == (if old(self)@.contains_key((k@, m)) {
                old(self)@
            } else {
                old(self)@.insert((k@, m), a)
            }),
            old(self).entries@.len() <= final(self).entries@.len(),
            forall|j: int| 0 <= j < old(self).entries@.len() ==> #[trigger] final(self).entries@[j] == old(self).entries@[j],
    {
        let ghost c = (k@, m);
        match self.find(&k, m) {
            Some(_) => {},
            None => {
                let ghost es = self.entries@;
                self.entries.push((k, m, a));
                proof {
                    assert forall|d: (KeyView, Mods)| #![auto] lookup(self.entries@, d) == (if d == c {
                        Some(a)
                    } else {
                        lookup(es, d)
                    }) by {
                        lemma_lookup_push(es, self.entries@.last(), d);
                    }
                }
                assert(self@ =~= old(self)@.insert(c, a));
            },
        }
    }

    /// Bind each chord held without `Shift` also with `Shift`, where that is
    /// not bound already ([`fill_shifted`]).
    pub fn fill_shifted(&mut self)
        ensures
            final(self)@ == fill_shifted(old(self)@),
    {
        let n: usize = self.entries.len();
        let ghost es = self.entries@;
        let ghost m0 = self@;
        let mut i: usize = 0;
        proof {
            assert(es.take(0) =~= Seq::<(Key, Mods, Action)>::empty());
            assert(self@ =~= fill_upto(m0, es, 0));
        }
        while i < n
            invariant
                0 <= i <= n,
                n == es.len(),
                m0 == layer_map(es),
                self.entries@.len() >= n,
                forall|j: int| 0 <= j < n ==> #[trigger] self.entries@[j] == es[j],
                self@ == fill_upto(m0, es, i as int),
            decreases n - i,
        {
            let k = copy_key(&self.entries[i].0);
            let m = self.entries[i].1;
            let a = self.entries[i].2;
            let ghost before = self@;
            proof {
                assert(es.take(i + 1) =~= es.take(i as int).push(es[i as int]));
            }
            if !m.shift {
                let ms = Mods { shift: true, ..m };
                let ghost cs = (k@, ms);
                self.push_absent(k, ms, a);
                proof {
                    assert forall|c: (KeyView, Mods)| #![auto] c != cs ==> lookup(es.take(i + 1), (c.0, Mods { shift: false, ..c.1 }))
                        == lookup(es.take(i as int), (c.0, Mods { shift: false, ..c.1 })) || !c.1.shift by {
                        lemma_lookup_push(es.take(i as int), es[i as int], (c.0, Mods { shift: false, ..c.1 }));
                    }
                    lemma_lookup_push(es.take(i as int), es[i as int], (k@, m));
                    assert(self@ =~= fill_upto(m0, es, i + 1));
                }
            } else {
                proof {
                    assert forall|c: (KeyView, Mods)| #![auto] c.1.shift implies lookup(es.take(i + 1), (c.0, Mods { shift: false, ..c.1 }))
                        == lookup(es.take(i as int), (c.0, Mods { shift: false, ..c.1 })) by {
                        lemma_lookup_push(es.take(i as int), es[i as int], (c.0, Mods { shift: false, ..c.1 }));
                    }
                    assert(self@ =~= fill_upto(m0, es, i + 1));
                }
            }
            i += 1;
        }
        proof {
            assert(es.take(n as int) =~= es);
            assert(self@ =~= fill_shifted(m0));
        }
    }

    /// Unbind every chord.
    pub fn clear(&mut self)
        ensures
            final(self)@ == Map::<(KeyView, Mods), Action>::empty(),
    {
        self.entries = Vec::new();
        assert(self@ =~= Map::<(KeyView, Mods), Action>::empty());
    }
}

proof fn lemma_lookup_some(es: Seq<(Key, Mods, Action)>, c: (KeyView, Mods), i: int)
    requires
        0 <= i < es.len(),
        chord_of(es[i]) == c,
    ensures
        lookup(es, c) is Some,
    decreases es.len(),
{
    if chord_of(es[0]) != c {
        lemma_lookup_some(es.drop_first(), c, i - 1);
    }
}

proof fn lemma_lookup_index(es: Seq<(Key, Mods, Action)>, c: (KeyView, Mods)) -> (i: int)
    requires
        lookup(es, c) is Some,
    ensures
        0 <= i < es.len(),
        chord_of(es[i]) == c,
    decreases es.len(),
{
    if chord_of(es[0]) == c {
        0
    } else {
        1 + lemma_lookup_index(es.drop_first(), c)
    }
}

} // verus!
