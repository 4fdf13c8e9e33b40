use vstd::prelude::*;
use crate::error::GraphError;
use crate::paths::{hop_distance, is_hop_distance, is_reachable, within_nodes};

verus! {

/// `names` extended by `x` unless it already holds it.
pub open spec fn add_name(names: Seq<Seq<char>>, x: Seq<char>) -> Seq<Seq<char>> {
    if names.contains(x) {
        names
    } else {
        names.push(x)
    }
}

/// The distinct entity names of an edge list, in order of first appearance
/// (within an edge, the source before the target).
pub open spec fn entity_order(input: Seq<(Seq<char>, Seq<char>)>) -> Seq<Seq<char>>
    decreases input.len(),
{
    if input.len() == 0 {
        Seq::empty()
    } else {
        let e = input.last();
        add_name(add_name(entity_order(input.drop_last()), e.0), e.1)
    }
}

/// The number of edges of `input` that name `name` as either endpoint.
pub open spec fn appearances(input: Seq<(Seq<char>, Seq<char>)>, name: Seq<char>) -> nat
    decreases input.len(),
{
    if input.len() == 0 {
        0
    } else {
        let e = input.last();
        appearances(input.drop_last(), name) + if e.0 == name || e.1 == name {
            1nat
        } else {
            0nat
        }
    }
}

/// The character sequences of a list of strings.
pub open spec fn string_views(s: Seq<String>) -> Seq<Seq<char>> {
    s.map_values(|x: String| x@)
}

/// No name occurs twice.
pub open spec fn distinct(names: Seq<Seq<char>>) -> bool {
    forall|i: int, j: int| 0 <= i < j < names.len() ==> names[i] != names[j]
}

/// An edge list of owned strings, seen as pairs of character sequences.
pub open spec fn edge_list_view(input: Seq<(String, String)>) -> Seq<(Seq<char>, Seq<char>)> {
    input.map_values(|p: (String, String)| (p.0@, p.1@))
}

/// The entities and directed relationships built from an edge list.
///
/// Entities are numbered in order of first appearance; a relationship is a
/// pair of entity numbers, source first. Parallel relationships are kept.
pub struct GraphStore {
    names: Vec<String>,
    counts: Vec<usize>,
    relationships: Vec<(usize, usize)>,
}

impl GraphStore {
    /// The entity names, in enumeration order.
    pub closed spec fn names(&self) -> Seq<Seq<char>> {
        string_views(self.names@)
    }

    /// The appearance count of each entity, in enumeration order.
    pub closed spec fn counts(&self) -> Seq<nat> {
        self.counts@.map_values(|c: usize| c as nat)
    }

    /// The directed relationships, as (source, target) entity numbers.
    pub closed spec fn relationships(&self) -> Seq<(usize, usize)> {
        self.relationships@
    }

    /// Names are unique, each entity has a count, and no relationship
    /// refers to an entity outside the store.
    pub open spec fn wf(&self) -> bool {
        &&& self.counts().len() == self.names().len()
        &&& distinct(self.names())
        &&& forall|e: int|
            0 <= e < self.relationships().len() ==> {
                &&& (self.relationships()[e].0 as int) < self.names().len()
                &&& (self.relationships()[e].1 as int) < self.names().len()
            }
    }

    /// Builds the store from an edge list, in one pass over it: each name is
    /// registered at its first appearance, every edge adds one to the count of
    /// each entity it names, and becomes one relationship from its first name
    /// to its second.
    pub fn from_edges(input: &Vec<(String, String)>) -> (s: GraphStore)
        ensures
            s.wf(),
            s.names() == entity_order(edge_list_view(input@)),
            forall|v: int|
                0 <= v < s.names().len() ==> s.counts()[v] == appearances(
                    edge_list_view(input@),
                    #[trigger] s.names()[v],
                ),
            s.relationships().len() == input.len(),
            forall|e: int|
                0 <= e < input.len() ==> {
                    &&& s.names()[#[trigger] s.relationships()[e].0 as int] == input@[e].0@
                    &&& s.names()[s.relationships()[e].1 as int] == input@[e].1@
                },
    {
        let ghost iv = edge_list_view(input@);
        let mut names: Vec<String> = Vec::new();
        let mut counts: Vec<usize> = Vec::new();
        let mut relationships: Vec<(usize, usize)> = Vec::new();
        let mut i: usize = 0;
        proof {
            assert(iv.take(0) =~= Seq::empty());
            assert(string_views(names@) =~= Seq::empty());
        }
        while i < input.len()
            invariant
                i <= input.len(),
                iv == edge_list_view(input@),
                counts.len() == names.len(),
                string_views(names@) == entity_order(iv.take(i as int)),
                distinct(string_views(names@)),
                forall|v: int|
                    0 <= v < names.len() ==> {
                        &&& counts@[v] == appearances(iv.take(i as int), #[trigger] names@[v]@)
                        &&& counts@[v] <= i
                    },
                relationships.len() == i,
                forall|e: int|
                    0 <= e < i ==> {
                        &&& (#[trigger] relationships@[e].0 as int) < names.len()
                        &&& (relationships@[e].1 as int) < names.len()
                        &&& names@[relationships@[e].0 as int]@ == iv[e].0
                        &&& names@[relationships@[e].1 as int]@ == iv[e].1
                    },
            decreases input.len() - i,
        {
            let ghost old_names = names@;
            let ghost old_counts = counts@;
            let a = intern(&mut names, &mut counts, &input[i].0);
            let ghost mid_len = names.len();
            let ghost mid_names = names@;
            let ghost mid_counts = counts@;
            let b = intern(&mut names, &mut counts, &input[i].1);
            let ghost pre = iv.take(i as int);
            let ghost post = iv.take(i + 1);
            proof {
                assert(post.drop_last() =~= pre);
                assert(post.last() == iv[i as int]);
                assert(iv[i as int] == (input@[i as int].0@, input@[i as int].1@));
                assert forall|v: int| 0 <= v < names.len() implies {
                    &&& counts@[v] == appearances(pre, #[trigger] names@[v]@)
                    &&& counts@[v] <= i
                } by {
                    if v < old_names.len() {
                        assert(names@[v] == mid_names[v]);
                        assert(mid_names[v] == old_names[v]);
                        assert(counts@[v] == mid_counts[v]);
                        assert(mid_counts[v] == old_counts[v]);
                    } else {
                        if v < mid_len {
                            assert(v == old_names.len());
                            assert(counts@[v] == mid_counts[v]);
                        }
                        assert(counts@[v] == 0);
                        assert(string_views(names@)[v] == names@[v]@);
                        if string_views(old_names).contains(names@[v]@) {
                            let k = choose|k: int|
                                0 <= k < old_names.len() && string_views(old_names)[k]
                                    == names@[v]@;
                            assert(string_views(names@)[k] == names@[k]@);
                        }
                        lemma_unseen_has_no_appearances(pre, names@[v]@);
                    }
                }
                assert(string_views(names@)[a as int] == names@[a as int]@);
                assert(string_views(names@)[b as int] == names@[b as int]@);
            }
            let ca = counts[a];
            counts.set(a, ca + 1);
            if b != a {
                let cb = counts[b];
                counts.set(b, cb + 1);
            }
            relationships.push((a, b));
            proof {
                assert forall|v: int| 0 <= v < names.len() implies {
                    &&& counts@[v] == appearances(post, #[trigger] names@[v]@)
                    &&& counts@[v] <= i + 1
                } by {
                    assert(string_views(names@)[v] == names@[v]@);
                }
                assert forall|e: int| 0 <= e < i + 1 implies {
                    &&& (#[trigger] relationships@[e].0 as int) < names.len()
                    &&& (relationships@[e].1 as int) < names.len()
                    &&& names@[relationships@[e].0 as int]@ == iv[e].0
                    &&& names@[relationships@[e].1 as int]@ == iv[e].1
                } by {}
            }
            i = i + 1;
        }
        proof {
            assert(iv.take(i as int) =~= iv);
        }
        GraphStore { names, counts, relationships }
    }

    /// The number of edges on a shortest directed path from the entity called
    /// `source` to the one called `target`.
    ///
    /// Fails with `UnknownEntity` naming the first of the two names that the
    /// store does not hold, and with `Unreachable` when both are held but no
    /// directed path leads from the first to the second.
    pub fn degrees_of_separation(&self, source: &String, target: &String) -> (r: Result<
        usize,
        GraphError,
    >)
        requires
            self.wf(),
        ensures
            !self.holds(source@) ==> (r matches Err(GraphError::UnknownEntity(n)) && n@
                == source@),
            self.holds(source@) && !self.holds(target@) ==> (r matches Err(
                GraphError::UnknownEntity(n),
            ) && n@ == target@),
            forall|i: int, j: int|
                0 <= i < self.names().len() && 0 <= j < self.names().len() && #[trigger] self.names()[i]
                    == source@ && #[trigger] self.names()[j] == target@ ==> match r {
                    Ok(d) => is_hop_distance(self.relationships(), i, j, d as nat),
                    Err(GraphError::Unreachable) => !is_reachable(self.relationships(), i, j),
                    Err(_) => false,
                },
    {
        let si = match self.index_of(source) {
            Some(i) => i,
            None => {
                return Err(GraphError::UnknownEntity(source.clone()));
            },
        };
        let ti = match self.index_of(target) {
            Some(i) => i,
            None => {
                return Err(GraphError::UnknownEntity(target.clone()));
            },
        };
        proof {
            assert(self.names().len() == self.names.len());
            assert forall|e: int| 0 <= e < self.relationships@.len() implies (
            #[trigger] self.relationships@[e]).0 < self.names.len() && self.relationships@[e].1
                < self.names.len() by {
                assert(self.relationships()[e] == self.relationships@[e]);
            }
        }
        match hop_distance(&self.relationships, self.names.len(), si, ti) {
            Some(d) => Ok(d),
            None => Err(GraphError::Unreachable),
        }
    }

    /// The number of entities.
    pub fn entity_count(&self) -> (r: usize)
        ensures
            r == self.names().len(),
    {
        self.names.len()
    }

    /// The name of entity `i`.
    pub fn entity_name(&self, i: usize) -> (r: &String)
        requires
            i < self.names().len(),
        ensures
            r@ == self.names()[i as int],
    {
        &self.names[i]
    }

    /// The number of edges of the input that name entity `i`.
    pub fn appearance_count(&self, i: usize) -> (r: usize)
        requires
            self.wf(),
            i < self.names().len(),
        ensures
            r == self.counts()[i as int],
    {
        self.counts[i]
    }

    /// The number of relationships.
    pub fn relationship_count(&self) -> (r: usize)
        ensures
            r == self.relationships().len(),
    {
        self.relationships.len()
    }

    /// Relationship `e`, as (source, target) entity numbers.
    pub fn relationship(&self, e: usize) -> (r: (usize, usize))
        requires
            e < self.relationships().len(),
        ensures
            r == self.relationships()[e as int],
    {
        self.relationships[e]
    }

    /// Whether `name` is the name of an entity of the store.
    pub open spec fn holds(&self, name: Seq<char>) -> bool {
        self.names().contains(name)
    }

    /// The number of the entity called `name`, if there is one.
    pub fn index_of(&self, name: &String) -> (r: Option<usize>)
        requires
            self.wf(),
        ensures
            r is None <==> !self.holds(name@),
            r matches Some(i) ==> i < self.names().len() && self.names()[i as int] == name@,
    {
        find_name(&self.names, name)
    }
}

/// A built store has no dangling relationship: both ends of every
/// relationship are entities of the store.
pub proof fn lemma_no_dangling(s: &GraphStore, e: int)
    requires
        s.wf(),
        0 <= e < s.relationships().len(),
    ensures
        (s.relationships()[e].0 as int) < s.names().len(),
        (s.relationships()[e].1 as int) < s.names().len(),
{
}

/// A name missing from the entity order of an edge list is named by none of its edges.
proof fn lemma_unseen_has_no_appearances(input: Seq<(Seq<char>, Seq<char>)>, x: Seq<char>)
    requires
        !entity_order(input).contains(x),
    ensures
        appearances(input, x) == 0,
    decreases input.len(),
{
    if input.len() > 0 {
        let e = input.last();
        let prev = entity_order(input.drop_last());
        let mid = add_name(prev, e.0);
        if prev.contains(x) {
            let k = choose|k: int| 0 <= k < prev.len() && prev[k] == x;
            assert(mid[k] == x);
            assert(add_name(mid, e.1)[k] == x);
        }
        if e.0 == x {
            if !prev.contains(x) {
                assert(mid[prev.len() as int] == x);
            }
            let k = choose|k: int| 0 <= k < mid.len() && mid[k] == x;
            assert(add_name(mid, e.1)[k] == x);
        }
        if e.1 == x && !mid.contains(x) {
            assert(add_name(mid, e.1)[mid.len() as int] == x);
        }
        lemma_unseen_has_no_appearances(input.drop_last(), x);
    }
}

/// Registers `name` with a count of zero unless `names` holds it already, and
/// returns its position.
fn intern(names: &mut Vec<String>, counts: &mut Vec<usize>, name: &String) -> (idx: usize)
    requires
        old(names).len() == old(counts).len(),
        distinct(string_views(old(names)@)),
    ensures
        string_views(final(names)@) == add_name(string_views(old(names)@), name@),
        distinct(string_views(final(names)@)),
        final(counts).len() == final(names).len(),
        old(names).len() <= final(names).len() <= old(names).len() + 1,
        forall|j: int| 0 <= j < old(names).len() ==> final(names)@[j] == old(names)@[j],
        forall|j: int| 0 <= j < old(counts).len() ==> final(counts)@[j] == old(counts)@[j],
        final(names).len() > old(names).len() ==> final(counts)@[old(names).len() as int] == 0,
        idx < final(names).len(),
        final(names)@[idx as int]@ == name@,
{
    match find_name(names, name) {
        Some(i) => i,
        None => {
            names.push(name.clone());
            counts.push(0);
            proof {
                assert(string_views(names@) =~= string_views(old(names)@).push(name@));
            }
            names.len() - 1
        },
    }
}

/// The position of `name` in `names`, if it occurs there.
fn find_name(names: &Vec<String>, name: &String) -> (r: Option<usize>)
    ensures
        r is None <==> !string_views(names@).contains(name@),
        r matches Some(i) ==> i < names.len() && names@[i as int]@ == name@,
{
    let ghost view = string_views(names@);
    let mut i: usize = 0;
    while i < names.len()
        invariant
            i <= names.len(),
            view == string_views(names@),
            forall|j: int| 0 <= j < i ==> view[j] != name@,
        decreases names.len() - i,
    {
        if names[i] == *name {
            assert(view[i as int] == name@);
            return Some(i);
        }
        i = i + 1;
    }
    proof {
        assert forall|j: int| 0 <= j < view.len() implies view[j] != name@ by {}
    }
    None
}

} // verus!
