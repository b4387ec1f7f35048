//! Names become node numbers, and declared dependencies become edges.

use vstd::prelude::*;
use ahash::AHashMap;
use ahash::RandomState;
use crate::graph::edges_within;
use crate::index::index_entries;
use crate::index::index_get;
use crate::index::index_insert;
use crate::index::index_new;
use crate::plan::is_live;
use crate::plan::is_mentioned;
use crate::plan::is_named;
use crate::plan::is_slot;
use crate::plan::PluginDecl;

verus! {

/// `ids` and `names` are inverse to each other: a name's number is its place in `names`.
pub open spec fn is_numbering(ids: Map<Seq<char>, usize>, names: Seq<String>) -> bool {
    &&& forall|s: Seq<char>| #[trigger]
        ids.contains_key(s) ==> ids[s] < names.len() && names[ids[s] as int]@ == s
    &&& forall|v: int|
        0 <= v < names.len() ==> ids.contains_key((#[trigger] names[v])@) && ids[names[v]@] == v
}

/// The edge that the `j`-th dependency of the plugin at place `i` stands for.
pub open spec fn edge_of(ids: Map<Seq<char>, usize>, decls: Seq<PluginDecl>, i: int, j: int) -> (usize, usize) {
    (ids[decls[i].dependencies@[j]@], ids[decls[i].name@])
}

/// Both ends of that edge have a number.
pub open spec fn has_ends(ids: Map<Seq<char>, usize>, decls: Seq<PluginDecl>, i: int, j: int) -> bool {
    ids.contains_key(decls[i].dependencies@[j]@) && ids.contains_key(decls[i].name@)
}

/// The dependency graph of a sequence of declarations, as far as it has been read.
pub struct Resolved {
    /// The name of each node.
    pub names: Vec<String>,
    /// The node of each name.
    pub ids: AHashMap<String, usize, RandomState>,
    /// An edge from each dependency to the plugin that lists it.
    pub edges: Vec<(usize, usize)>,
    /// The node of each plugin read so far.
    pub owner: Vec<usize>,
    /// For each node, the place of the last plugin read so far that has its name.
    pub backing: Vec<Option<usize>>,
    /// The declaration that each edge stands for.
    pub origin: Ghost<Seq<(int, int)>>,
}

impl Resolved {
    /// The number of each name.
    pub open spec fn numbers(&self) -> Map<Seq<char>, usize> {
        index_entries(self.ids)
    }

    /// The name of the plugin at place `x` has a number, and `owner` holds it.
    pub open spec fn owns(&self, decls: Seq<PluginDecl>, x: int) -> bool {
        self.numbers().contains_key(decls[x].name@) && self.owner[x] == self.numbers()[decls[x].name@]
    }

    /// The edge at place `e` is the one that its declared dependency stands for.
    pub open spec fn stands_for(&self, decls: Seq<PluginDecl>, e: int) -> bool {
        let (x, y) = self.origin@[e];
        is_slot(decls, x, y) && has_ends(self.numbers(), decls, x, y) && self.edges[e] == edge_of(
            self.numbers(),
            decls,
            x,
            y,
        )
    }

    /// The names of the first `i` plugins are read, and of plugin `i - 1` the first `j`
    /// dependencies; of earlier plugins all of them.
    pub open spec fn covers(&self, decls: Seq<PluginDecl>, i: int, j: int) -> bool {
        &&& 0 <= i <= decls.len()
        &&& is_numbering(self.numbers(), self.names@)
        &&& self.backing.len() == self.names.len()
        &&& self.owner.len() == i
        &&& self.origin@.len() == self.edges.len()
        &&& edges_within(self.edges@, self.names.len() as nat)
        &&& forall|v: int| 0 <= v < self.names.len() ==> is_mentioned(decls, (#[trigger] self.names[v])@)
        &&& forall|x: int| 0 <= x < i ==> #[trigger] self.owns(decls, x)
        &&& forall|e: int| 0 <= e < self.edges.len() ==> #[trigger] self.stands_for(decls, e)
        &&& forall|x: int, y: int| #[trigger]
            is_slot(decls, x, y) && (x < i - 1 || (x == i - 1 && y < j)) ==> has_ends(
                self.numbers(),
                decls,
                x,
                y,
            ) && self.edges@.contains(edge_of(self.numbers(), decls, x, y))
        &&& forall|v: int|
            0 <= v < self.names.len() ==> match #[trigger] self.backing[v] {
                Some(b) => b < i && decls[b as int].name@ == self.names[v]@ && forall|l: int|
                    b < l < i ==> (#[trigger] decls[l]).name@ != self.names[v]@,
                None => forall|l: int| 0 <= l < i ==> (#[trigger] decls[l]).name@ != self.names[v]@,
            }
    }

    /// Nothing read yet.
    pub fn new() -> (r: Self)
        ensures
            forall|decls: Seq<PluginDecl>| #[trigger] r.covers(decls, 0, 0),
    {
        Resolved {
            names: Vec::new(),
            ids: index_new(),
            edges: Vec::new(),
            owner: Vec::new(),
            backing: Vec::new(),
            origin: Ghost(Seq::empty()),
        }
    }

    /// The node of `name`, made if the name is new.
    fn intern(&mut self, name: &String) -> (id: usize)
        requires
            is_numbering(old(self).numbers(), old(self).names@),
            old(self).backing.len() == old(self).names.len(),
        ensures
            is_numbering(final(self).numbers(), final(self).names@),
            final(self).backing.len() == final(self).names.len(),
            final(self).edges == old(self).edges,
            final(self).owner == old(self).owner,
            final(self).origin == old(self).origin,
            final(self).numbers() == old(self).numbers().insert(name@, id),
            forall|s: Seq<char>| #[trigger]
                old(self).numbers().contains_key(s) ==> final(self).numbers()[s] == old(self).numbers()[s],
            old(self).numbers().contains_key(name@) ==> final(self).names == old(self).names
                && final(self).backing == old(self).backing,
            !old(self).numbers().contains_key(name@) ==> id == old(self).names.len() && final(self).names@.len() == id + 1 && final(self).names@[id as int]@ == name@ && final(self).names@.take(id as int) == old(self).names@ && final(self).backing@ == old(self).backing@.push(None),
    {
        match index_get(&self.ids, name) {
            Some(id) => {
                proof {
                    assert(self.numbers() =~= self.numbers().insert(name@, id));
                }
                id
            },
            None => {
                let id: usize = self.names.len();
                index_insert(&mut self.ids, name.clone(), id);
                self.names.push(name.clone());
                self.backing.push(None);
                proof {
                    assert(self.names@.take(id as int) =~= old(self).names@);
                }
                id
            },
        }
    }

    /// Reads the name of the plugin at place `i`.
    fn enter(&mut self, decls: &Vec<PluginDecl>, i: usize)
        requires
            i < decls.len(),
            old(self).covers(
                decls@,
                i as int,
                if i == 0 {
                    0
                } else {
                    decls@[i - 1].dependencies@.len() as int
                },
            ),
        ensures
            final(self).covers(decls@, i + 1, 0),
    {
        let master: usize = self.intern(&decls[i].name);
        self.owner.push(master);
        self.backing.set(master, Some(i));
        proof {
            let before = old(self).numbers();
            let now = self.numbers();
            assert(is_named(decls@, i as int, decls@[i as int].name@));
            assert forall|x: int| 0 <= x < i + 1 implies #[trigger] self.owns(decls@, x) by {
                if x < i {
                    assert(old(self).owns(decls@, x));
                }
            }
            assert forall|v: int| 0 <= v < self.names.len() implies is_mentioned(
                decls@,
                (#[trigger] self.names[v])@,
            ) by {
                if v < old(self).names.len() {
                    assert(self.names@.take(old(self).names.len() as int)[v] == self.names[v]);
                    assert(old(self).names[v] == self.names[v]);
                }
            }
            assert forall|e: int| 0 <= e < self.edges.len() implies #[trigger] self.stands_for(decls@, e) by {
                assert(old(self).stands_for(decls@, e));
            }
            assert forall|x: int, y: int| #[trigger]
                is_slot(decls@, x, y) && x < i implies has_ends(now, decls@, x, y)
                && self.edges@.contains(edge_of(now, decls@, x, y)) by {
                assert(has_ends(before, decls@, x, y));
                assert(edge_of(now, decls@, x, y) == edge_of(before, decls@, x, y));
            }
            assert forall|v: int| 0 <= v < self.names.len() implies match #[trigger] self.backing[v] {
                Some(b) => b < i + 1 && decls@[b as int].name@ == self.names[v]@ && forall|l: int|
                    b < l < i + 1 ==> (#[trigger] decls@[l]).name@ != self.names[v]@,
                None => forall|l: int| 0 <= l < i + 1 ==> (#[trigger] decls@[l]).name@ != self.names[v]@,
            } by {
                if v != master {
                    if v < old(self).names.len() {
                        assert(self.names@.take(old(self).names.len() as int)[v] == self.names[v]);
                        assert(old(self).names[v] == self.names[v]);
                        assert(old(self).backing[v] == self.backing[v]);
                    }
                }
            }
        }
    }

    /// Reads the `j`-th dependency of the plugin at place `i`, whose name has been read.
    fn link(&mut self, decls: &Vec<PluginDecl>, i: usize, j: usize)
        requires
            i < decls.len(),
            j < decls@[i as int].dependencies@.len(),
            old(self).covers(decls@, i + 1, j as int),
        ensures
            final(self).covers(decls@, i + 1, j + 1),
    {
        let master: usize = self.owner[i];
        let source: usize = self.intern(&decls[i].dependencies[j]);
        self.edges.push((source, master));
        self.origin = Ghost(self.origin@.push((i as int, j as int)));
        proof {
            let before = old(self).numbers();
            let now = self.numbers();
            assert(is_slot(decls@, i as int, j as int));
            assert forall|x: int| 0 <= x < i + 1 implies #[trigger] self.owns(decls@, x) by {
                assert(old(self).owns(decls@, x));
            }
            assert forall|v: int| 0 <= v < self.names.len() implies is_mentioned(
                decls@,
                (#[trigger] self.names[v])@,
            ) by {
                if v < old(self).names.len() {
                    assert(self.names@.take(old(self).names.len() as int)[v] == self.names[v]);
                    assert(old(self).names[v] == self.names[v]);
                }
            }
            assert(old(self).owns(decls@, i as int));
            assert forall|e: int| 0 <= e < self.edges.len() implies #[trigger] self.stands_for(decls@, e) by {
                if e < old(self).edges.len() {
                    assert(old(self).stands_for(decls@, e));
                }
            }
            assert forall|x: int, y: int| #[trigger]
                is_slot(decls@, x, y) && (x < i || (x == i && y < j + 1)) implies has_ends(now, decls@, x, y)
                && self.edges@.contains(edge_of(now, decls@, x, y)) by {
                if x == i && y == j {
                    assert(self.edges[old(self).edges.len() as int] == edge_of(now, decls@, x, y));
                } else {
                    assert(has_ends(before, decls@, x, y));
                    assert(edge_of(now, decls@, x, y) == edge_of(before, decls@, x, y));
                    let e = choose|e: int|
                        0 <= e < old(self).edges.len() && old(self).edges[e] == edge_of(before, decls@, x, y);
                    assert(self.edges[e] == old(self).edges[e]);
                }
            }
            assert forall|v: int| 0 <= v < self.names.len() implies match #[trigger] self.backing[v] {
                Some(b) => b < i + 1 && decls@[b as int].name@ == self.names[v]@ && forall|l: int|
                    b < l < i + 1 ==> (#[trigger] decls@[l]).name@ != self.names[v]@,
                None => forall|l: int| 0 <= l < i + 1 ==> (#[trigger] decls@[l]).name@ != self.names[v]@,
            } by {
                if v < old(self).names.len() {
                    assert(self.names@.take(old(self).names.len() as int)[v] == self.names[v]);
                    assert(old(self).names[v] == self.names[v]);
                    assert(old(self).backing[v] == self.backing[v]);
                } else {
                    assert forall|l: int| 0 <= l < i + 1 implies (#[trigger] decls@[l]).name@ != self.names[v]@ by {
                        assert(old(self).owns(decls@, l));
                    }
                }
            }
        }
    }

    /// Every declaration has been read.
    pub open spec fn complete(&self, decls: Seq<PluginDecl>) -> bool {
        self.covers(
            decls,
            decls.len() as int,
            if decls.len() == 0 {
                0
            } else {
                decls[decls.len() - 1].dependencies@.len() as int
            },
        )
    }

    /// The plugin at place `i` is the last one read under its name.
    pub open spec fn backs(&self, i: int) -> bool {
        self.backing[self.owner[i] as int] == Some(i as usize)
    }

    /// Reads every declaration, in order.
    pub fn read_all(decls: &Vec<PluginDecl>) -> (r: Self)
        ensures
            r.complete(decls@),
    {
        let mut r = Resolved::new();
        let mut i: usize = 0;
        while i < decls.len()
            invariant
                i <= decls.len(),
                r.covers(
                    decls@,
                    i as int,
                    if i == 0 {
                        0
                    } else {
                        decls@[i - 1].dependencies@.len() as int
                    },
                ),
            decreases decls.len() - i,
        {
            r.enter(decls, i);
            let mut j: usize = 0;
            while j < decls[i].dependencies.len()
                invariant
                    i < decls.len(),
                    j <= decls@[i as int].dependencies@.len(),
                    r.covers(decls@, i + 1, j as int),
                decreases decls@[i as int].dependencies@.len() - j,
            {
                r.link(decls, i, j);
                j = j + 1;
            }
            i = i + 1;
        }
        r
    }

    /// Once all is read: every declared dependency is an edge, the numbered names are the
    /// mentioned ones, and a plugin backs its node exactly if it is live.
    pub proof fn lemma_complete(&self, decls: Seq<PluginDecl>)
        requires
            self.complete(decls),
        ensures
            forall|x: int, y: int| #[trigger]
                is_slot(decls, x, y) ==> has_ends(self.numbers(), decls, x, y) && self.edges@.contains(
                    edge_of(self.numbers(), decls, x, y),
                ),
            forall|s: Seq<char>| #[trigger] self.numbers().contains_key(s) <==> is_mentioned(decls, s),
            forall|x: int| 0 <= x < decls.len() ==> #[trigger] self.owns(decls, x),
            forall|x: int| 0 <= x < decls.len() ==> (#[trigger] self.backs(x) <==> is_live(decls, x)),
    {
        assert forall|s: Seq<char>| #[trigger] self.numbers().contains_key(s) implies is_mentioned(decls, s) by {
            assert(self.names[self.numbers()[s] as int]@ == s);
        }
        assert forall|s: Seq<char>| is_mentioned(decls, s) implies #[trigger] self.numbers().contains_key(s) by {
            if exists|i: int| #[trigger] is_named(decls, i, s) {
                let i = choose|i: int| #[trigger] is_named(decls, i, s);
                assert(self.owns(decls, i));
            } else {
                let (i, j) = choose|i: int, j: int| #[trigger] is_slot(decls, i, j) && decls[i].dependencies@[j]@ == s;
                assert(has_ends(self.numbers(), decls, i, j));
            }
        }
        assert forall|x: int| 0 <= x < decls.len() implies (#[trigger] self.backs(x) <==> is_live(decls, x)) by {
            assert(self.owns(decls, x));
            let v = self.owner[x] as int;
            assert(self.names[v]@ == decls[x].name@);
            match self.backing[v] {
                Some(b) => {
                    if b != x {
                        if b < x {
                            assert(decls[x].name@ != self.names[v]@);
                        } else {
                            assert(decls[b as int].name@ == decls[x].name@);
                        }
                    }
                },
                None => {
                    assert(decls[x].name@ != self.names[v]@);
                },
            }
        }
    }
}

} // verus!
