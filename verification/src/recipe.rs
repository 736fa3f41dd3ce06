//! Recipes: the prime factors of a number with their multiplicities.

use std::collections::HashMap;
use std::rc::Rc;
use vstd::prelude::*;
use vstd::std_specs::hash::spec_hash_map_iter;
use vstd::std_specs::iter::IteratorSpec;
use vstd::string::*;
use crate::decimal::{decimal, decimal_string};
use crate::factors::{ascending, entries, exponent, lemma_entries_unique, limit, merged, single};
use crate::input::N;

verus! {

/// One entry of a recipe: a prime factor and how often it occurs.
#[derive(Clone, Copy, Debug, PartialEq, Eq)]
pub struct DigestNode {
    pub count: u8,
    pub prime_number: N,
}

impl DigestNode {
    /// The entry as a pair of factor and multiplicity.
    pub open spec fn entry(self) -> (nat, nat) {
        (self.prime_number as nat, self.count as nat)
    }

    /// A factor that occurs once.
    pub fn new(prime_number: N) -> (node: Self)
        ensures
            node.prime_number == prime_number,
            node.count == 1,
    {
        Self { count: 1, prime_number }
    }

    /// Raises the multiplicity by `val`.
    pub fn add(&mut self, val: u8)
        requires
            old(self).count + val <= u8::MAX,
        ensures
            final(self).count == old(self).count + val,
            final(self).prime_number == old(self).prime_number,
    {
        self.count += val;
    }

    /// Renders the entry as `prime^count`.
    pub fn to_string(&self) -> (s: String)
        ensures
            s@ == entry_text(self.entry()),
    {
        let mut s = decimal_string(self.prime_number);
        s.append("^");
        let count = decimal_string(self.count as u64);
        s.append(count.as_str());
        s
    }
}

/// The text of one entry: the factor, a caret, the multiplicity.
pub open spec fn entry_text(e: (nat, nat)) -> Seq<char> {
    decimal(e.0) + "^"@ + decimal(e.1)
}

/// The text of a list of entries, joined by `" * "`.
pub open spec fn entries_text(s: Seq<(nat, nat)>) -> Seq<char>
    decreases s.len(),
{
    if s.len() == 0 {
        Seq::empty()
    } else if s.len() == 1 {
        entry_text(s[0])
    } else {
        entries_text(s.drop_last()) + " * "@ + entry_text(s.last())
    }
}

/// The entries that a list of nodes holds, in the list's order.
pub open spec fn listing(nodes: Seq<DigestNode>) -> Seq<(nat, nat)> {
    nodes.map_values(|node: DigestNode| node.entry())
}

/// The working form of a recipe: entries by factor.
pub type RecipeContents = HashMap<N, DigestNode>;

/// Every entry is stored under its own factor.
pub open spec fn keyed(contents: Map<N, DigestNode>) -> bool {
    forall|k: N| #[trigger] contents.contains_key(k) ==> contents[k].prime_number == k
}

/// The multiplicity of each factor that `contents` holds.
pub open spec fn multiplicities(contents: Map<N, DigestNode>) -> Map<nat, nat> {
    Map::new(
        |p: nat| p < limit() && contents.contains_key(p as N),
        |p: nat| contents[p as N].count as nat,
    )
}

/// An immutable, cheaply shared map from prime factor to multiplicity.
#[derive(Debug)]
pub struct Recipe {
    contents: Rc<RecipeContents>,
}

impl Recipe {
    #[verifier::type_invariant]
    spec fn well_keyed(&self) -> bool {
        keyed(self.contents@)
    }
}

impl View for Recipe {
    type V = Map<nat, nat>;

    closed spec fn view(&self) -> Map<nat, nat> {
        multiplicities(self.contents@)
    }
}

impl Clone for Recipe {
    /// Shares the recipe; the clone equals the recipe it was made from.
    fn clone(&self) -> (r: Self)
        ensures
            r == *self,
    {
        proof {
            use_type_invariant(self);
        }
        Recipe { contents: self.contents.clone() }
    }
}

/// Copies a recipe into its working form.
pub fn recipe_to_contents(recipe: &Recipe) -> (map: RecipeContents)
    ensures
        keyed(map@),
        multiplicities(map@) == recipe@,
{
    proof {
        use_type_invariant(recipe);
    }
    let mut map: RecipeContents = HashMap::new();
    for (n, node) in it: recipe.contents.iter()
        invariant
            forall|j: int|
                0 <= j < it.index() ==> map@.contains_key(*(#[trigger] it.seq()[j]).0) && map@[*it.seq()[j].0]
                    == *it.seq()[j].1,
            forall|k: N|
                #[trigger] map@.contains_key(k) ==> recipe.contents@.contains_key(k) && map@[k]
                    == recipe.contents@[k],
    {
        map.insert(*n, *node);
    }
    assert(map@ =~= recipe.contents@);
    map
}

/// Adds an entry to a recipe in its working form: a new factor is
/// inserted, a known one has its multiplicity raised.
pub fn recipe_content_add(recipe_contents: RecipeContents, node: DigestNode) -> (map: RecipeContents)
    requires
        keyed(recipe_contents@),
        exponent(multiplicities(recipe_contents@), node.prime_number as nat) + node.count <= u8::MAX,
    ensures
        keyed(map@),
        multiplicities(map@) == merged(
            multiplicities(recipe_contents@),
            Map::<nat, nat>::empty().insert(node.prime_number as nat, node.count as nat),
        ),
{
    let mut recipe_contents = recipe_contents;
    let ghost before = recipe_contents@;
    let found = match recipe_contents.get(&node.prime_number) {
        Some(known) => Some(*known),
        None => None,
    };
    match found {
        Some(known) => {
            let mut raised = known;
            raised.add(node.count);
            recipe_contents.insert(node.prime_number, raised);
        },
        None => {
            recipe_contents.insert(node.prime_number, node);
        },
    }
    assert(multiplicities(recipe_contents@) =~= merged(
        multiplicities(before),
        Map::<nat, nat>::empty().insert(node.prime_number as nat, node.count as nat),
    ));
    recipe_contents
}

/// Merges two recipes: the factors of both, multiplicities of a shared
/// factor added.
pub fn recipe_combine(a: &Recipe, b: &Recipe) -> (recipe: Recipe)
    requires
        forall|p: nat| exponent(a@, p) + exponent(b@, p) <= u8::MAX,
    ensures
        recipe@ == merged(a@, b@),
{
    proof {
        use_type_invariant(b);
    }
    let mut map: RecipeContents = recipe_to_contents(a);
    let ghost done: Map<nat, nat> = Map::empty();
    let ghost order = spec_hash_map_iter(&*b.contents).remaining();
    assert(multiplicities(map@) =~= merged(a@, done));
    for (_, node) in it: b.contents.iter()
        invariant
            it.seq() == order,
            keyed(b.contents@),
            keyed(map@),
            forall|p: nat| exponent(a@, p) + exponent(b@, p) <= u8::MAX,
            it.seq().no_duplicates(),
            multiplicities(map@) == merged(a@, done),
            forall|j: int| 0 <= j < it.index() ==> done.contains_key(*(#[trigger] it.seq()[j]).0 as nat),
            forall|j: int|
                it.index() <= j < it.seq().len() ==> !done.contains_key(*(#[trigger] it.seq()[j]).0 as nat),
            forall|p: nat| #[trigger] done.contains_key(p) ==> b@.contains_key(p) && done[p] == b@[p],
    {
        let ghost p = node.prime_number as nat;
        let ghost i = it.index();
        proof {
            assert(*it.seq()[i].1 == *node);
            assert(b.contents@.contains_key(*it.seq()[i].0));
            assert(exponent(a@, p) + exponent(b@, p) <= u8::MAX);
        }
        let ghost earlier = done;
        map = recipe_content_add(map, *node);
        proof {
            done = earlier.insert(p, node.count as nat);
            assert(multiplicities(map@) =~= merged(a@, done));
            assert forall|j: int| it.index() < j < it.seq().len() implies !done.contains_key(
                *(#[trigger] it.seq()[j]).0 as nat,
            ) by {
                assert(it.seq()[j] != it.seq()[i]);
                assert(b.contents@.contains_key(*it.seq()[j].0));
            }
        }
    }
    proof {
        assert forall|p: nat| b@.contains_key(p) implies done.contains_key(p) by {
            let k = p as N;
            assert(b.contents@.contains_key(k));
            assert(order.contains((&k, &b.contents@[k])));
        }
        assert(done =~= b@);
    }
    Recipe { contents: Rc::new(map) }
}

/// Adds one occurrence of the factor `n` to a recipe.
pub fn recipe_add(a: &Recipe, n: &N) -> (recipe: Recipe)
    requires
        exponent(a@, *n as nat) + 1 <= u8::MAX,
    ensures
        recipe@ == merged(a@, single(*n as nat)),
{
    let mut map: RecipeContents = recipe_to_contents(a);
    map = recipe_content_add(map, DigestNode::new(*n));
    Recipe { contents: Rc::new(map) }
}

/// The recipe of the product of two factors.
pub fn recipe_create(an: &N, bn: &N) -> (recipe: Recipe)
    ensures
        recipe@ == merged(single(*an as nat), single(*bn as nat)),
{
    let mut map: RecipeContents = HashMap::new();
    map = recipe_content_add(map, DigestNode::new(*an));
    assert(multiplicities(map@) =~= single(*an as nat));
    map = recipe_content_add(map, DigestNode::new(*bn));
    Recipe { contents: Rc::new(map) }
}

/// The nodes stand in strictly ascending order of factor.
pub open spec fn sorted(nodes: Seq<DigestNode>) -> bool {
    forall|i: int, j: int| 0 <= i < j < nodes.len() ==> nodes[i].prime_number < nodes[j].prime_number
}

/// Puts a node at its place in a sorted list.
fn insert_sorted(nodes: &mut Vec<DigestNode>, node: DigestNode) -> (at: usize)
    requires
        sorted(old(nodes)@),
        forall|i: int| 0 <= i < old(nodes).len() ==> old(nodes)[i].prime_number != node.prime_number,
    ensures
        at <= old(nodes).len(),
        final(nodes)@ == old(nodes)@.insert(at as int, node),
        sorted(final(nodes)@),
{
    let mut at: usize = 0;
    while at < nodes.len() && nodes[at].prime_number < node.prime_number
        invariant
            at <= nodes.len(),
            *nodes == *old(nodes),
            forall|i: int| 0 <= i < at ==> nodes[i].prime_number < node.prime_number,
        decreases nodes.len() - at,
    {
        at += 1;
    }
    nodes.insert(at, node);
    at
}

/// Lists the entries of a recipe in ascending order of prime.
pub fn recipe_to_list(recipe: Recipe) -> (nodes: Vec<DigestNode>)
    ensures
        listing(nodes@) == entries(recipe@),
{
    proof {
        use_type_invariant(&recipe);
    }
    let mut nodes: Vec<DigestNode> = Vec::new();
    let ghost order = spec_hash_map_iter(&*recipe.contents).remaining();
    for (_, node) in it: recipe.contents.iter()
        invariant
            it.seq() == order,
            keyed(recipe.contents@),
            it.seq().no_duplicates(),
            sorted(nodes@),
            forall|i: int|
                0 <= i < nodes.len() ==> recipe.contents@.contains_key((#[trigger] nodes[i]).prime_number)
                    && recipe.contents@[nodes[i].prime_number] == nodes[i],
            forall|j: int| 0 <= j < it.index() ==> nodes@.contains(*(#[trigger] it.seq()[j]).1),
            forall|i: int, j: int|
                0 <= i < nodes.len() && it.index() <= j < it.seq().len() ==> (#[trigger] nodes[i]).prime_number
                    != *(#[trigger] it.seq()[j]).0,
    {
        let ghost earlier = nodes@;
        let ghost last = it.index();
        proof {
            assert(*it.seq()[last].1 == *node);
            assert(recipe.contents@.contains_key(*it.seq()[last].0));
            assert(node.prime_number == *it.seq()[last].0);
        }
        let at = insert_sorted(&mut nodes, *node);
        proof {
            assert forall|j: int| 0 <= j <= it.index() implies nodes@.contains(
                *(#[trigger] it.seq()[j]).1,
            ) by {
                if j < last {
                    assert(earlier.contains(*it.seq()[j].1));
                    let i = choose|i: int| 0 <= i < earlier.len() && earlier[i] == *it.seq()[j].1;
                    let moved = if i < at {
                        i
                    } else {
                        i + 1
                    };
                    assert(nodes[moved] == earlier[i]);
                } else {
                    assert(nodes[at as int] == *node);
                }
            }
            assert forall|i: int, j: int|
                0 <= i < nodes.len() && it.index() < j < it.seq().len() implies (#[trigger] nodes[i]).prime_number
                != *(#[trigger] it.seq()[j]).0 by {
                assert(recipe.contents@.contains_key(*it.seq()[j].0));
                if i == at {
                    assert(it.seq()[j] != it.seq()[last]);
                } else {
                    let from = if i < at {
                        i
                    } else {
                        i - 1
                    };
                    assert(nodes[i] == earlier[from]);
                }
            }
            assert forall|i: int| 0 <= i < nodes.len() implies recipe.contents@.contains_key(
                (#[trigger] nodes[i]).prime_number,
            ) && recipe.contents@[nodes[i].prime_number] == nodes[i] by {
                if i != at {
                    let from = if i < at {
                        i
                    } else {
                        i - 1
                    };
                    assert(nodes[i] == earlier[from]);
                }
            }
        }
    }
    proof {
        let s = listing(nodes@);
        assert forall|p: nat| p < limit() && #[trigger] recipe@.contains_key(p) implies exists|i: int|
            0 <= i < s.len() && (#[trigger] s[i]).0 == p by {
            let k = p as N;
            let pair = (&k, &recipe.contents@[k]);
            assert(order.contains(pair));
            let j = choose|j: int| 0 <= j < order.len() && order[j] == pair;
            assert(nodes@.contains(*order[j].1));
            let i = choose|i: int| 0 <= i < nodes.len() && nodes[i] == *order[j].1;
            assert(s[i].0 == p);
        }
        assert(ascending(s));
        lemma_entries_unique(recipe@, limit(), s);
    }
    nodes
}

/// Renders a recipe: its entries in ascending order of prime, joined by
/// `" * "`.
pub fn recipe_to_string(recipe: Recipe) -> (s: String)
    ensures
        s@ == entries_text(entries(recipe@)),
{
    let nodes = recipe_to_list(recipe);
    let mut s = String::new();
    let mut i: usize = 0;
    while i < nodes.len()
        invariant
            i <= nodes.len(),
            s@ == entries_text(listing(nodes@).take(i as int)),
        decreases nodes.len() - i,
    {
        let ghost shown = listing(nodes@).take(i as int);
        let ghost next = listing(nodes@).take(i + 1);
        proof {
            assert(next.drop_last() =~= shown);
            assert(next.last() == nodes[i as int].entry());
        }
        if i > 0 {
            s.append(" * ");
        }
        let text = nodes[i].to_string();
        s.append(text.as_str());
        proof {
            if i == 0 {
                assert(s@ =~= entry_text(next[0]));
            } else {
                assert(s@ =~= entries_text(shown) + " * "@ + entry_text(next.last()));
            }
        }
        i += 1;
    }
    assert(listing(nodes@).take(nodes.len() as int) =~= listing(nodes@));
    s
}

} // verus!
