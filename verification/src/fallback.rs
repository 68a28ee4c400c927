//! The parents of locales, and the chain from a locale up to one that has no
//! parent.

use crate::codec::InvalidLayout;
use crate::map::{map_layout, pairs, SortedMap};
use crate::varseq::{var_contents, VarSequence};
use vstd::prelude::*;
use vstd::set_lib::lemma_len_subset;
use vstd::string::StringSliceAdditionalSpecFns;

verus! {

/// More parents were followed than a sound map can have in a row: the map
/// names a locale among its own ancestors, or is otherwise broken.
#[derive(Debug, Clone, Copy, PartialEq, Eq, Structural)]
pub struct FallbackCycle;

/// How many parents a chain may follow.
pub const MAX_STEPS: usize = 32;

/// The locales met on the way up from `locale`: the locale itself, then its
/// parent, then the parent of that, until a locale has no parent or `steps`
/// parents were followed.
pub open spec fn walk(parents: Map<Seq<u8>, Seq<u8>>, locale: Seq<u8>, steps: nat) -> Seq<
    Seq<u8>,
>
    decreases steps,
{
    if steps == 0 || !parents.contains_key(locale) {
        seq![locale]
    } else {
        seq![locale] + walk(parents, parents[locale], (steps - 1) as nat)
    }
}

/// Whether the way up from `locale` comes to a locale without a parent after
/// `steps` parents at most.
pub open spec fn reaches_root(parents: Map<Seq<u8>, Seq<u8>>, locale: Seq<u8>, steps: nat) -> bool
    decreases steps,
{
    if !parents.contains_key(locale) {
        true
    } else if steps == 0 {
        false
    } else {
        reaches_root(parents, parents[locale], (steps - 1) as nat)
    }
}

/// The bytes of each of some strings.
pub open spec fn texts(strings: Seq<&str>) -> Seq<Seq<u8>> {
    Seq::new(strings.len(), |i: int| strings[i].spec_bytes())
}

/// A chain starts at the locale, goes from each locale to its parent, and is
/// no longer than the steps allow. Where the way up comes to a locale without
/// a parent in time, the chain ends there.
pub proof fn lemma_walk(parents: Map<Seq<u8>, Seq<u8>>, locale: Seq<u8>, steps: nat)
    ensures
        1 <= walk(parents, locale, steps).len() <= steps + 1,
        walk(parents, locale, steps)[0] == locale,
        forall|i: int|
            0 <= i < walk(parents, locale, steps).len() - 1 ==> parents.contains_key(
                #[trigger] walk(parents, locale, steps)[i],
            ) && walk(parents, locale, steps)[i + 1] == parents[walk(parents, locale, steps)[i]],
        reaches_root(parents, locale, steps) ==> !parents.contains_key(
            walk(parents, locale, steps).last(),
        ),
    decreases steps,
{
    if steps == 0 || !parents.contains_key(locale) {
    } else {
        let rest = walk(parents, parents[locale], (steps - 1) as nat);
        let all = walk(parents, locale, steps);
        lemma_walk(parents, parents[locale], (steps - 1) as nat);
        assert(all == seq![locale] + rest);
        assert forall|i: int| 0 <= i < all.len() - 1 implies parents.contains_key(
            #[trigger] all[i],
        ) && all[i + 1] == parents[all[i]] by {
            if i > 0 {
                assert(all[i] == rest[i - 1]);
                assert(all[i + 1] == rest[i]);
            } else {
                assert(all[1] == rest[0]);
            }
        }
        assert(all.last() == rest.last());
    }
}

/// The `n`-th ancestor of `locale`: the locale itself for 0, its parent for 1,
/// and so on, as far as there are parents.
pub open spec fn ancestor(parents: Map<Seq<u8>, Seq<u8>>, locale: Seq<u8>, n: nat) -> Option<
    Seq<u8>,
>
    decreases n,
{
    if n == 0 {
        Some(locale)
    } else if parents.contains_key(locale) {
        ancestor(parents, parents[locale], (n - 1) as nat)
    } else {
        None
    }
}

/// Whether no locale is among its own ancestors.
pub open spec fn acyclic(parents: Map<Seq<u8>, Seq<u8>>) -> bool {
    forall|locale: Seq<u8>, n: nat|
        n > 0 ==> #[trigger] ancestor(parents, locale, n) != Some(locale)
}

/// The ancestors of an ancestor are ancestors.
proof fn lemma_ancestor_of_ancestor(
    parents: Map<Seq<u8>, Seq<u8>>,
    locale: Seq<u8>,
    i: nat,
    k: nat,
)
    requires
        ancestor(parents, locale, i) is Some,
    ensures
        ancestor(parents, locale, i + k) == ancestor(parents, ancestor(parents, locale, i)->0, k),
    decreases i,
{
    if i > 0 {
        lemma_ancestor_of_ancestor(parents, parents[locale], (i - 1) as nat, k);
    }
}

/// A way up that has not come to a root after `steps` parents has met
/// `steps + 1` locales, each of them with a parent, each an ancestor of the
/// first.
proof fn lemma_walk_without_root(parents: Map<Seq<u8>, Seq<u8>>, locale: Seq<u8>, steps: nat)
    requires
        !reaches_root(parents, locale, steps),
    ensures
        walk(parents, locale, steps).len() == steps + 1,
        forall|i: int|
            0 <= i <= steps ==> parents.contains_key(#[trigger] walk(parents, locale, steps)[i])
                && ancestor(parents, locale, i as nat) == Some(walk(parents, locale, steps)[i]),
    decreases steps,
{
    if steps > 0 {
        let rest = walk(parents, parents[locale], (steps - 1) as nat);
        let all = walk(parents, locale, steps);
        lemma_walk_without_root(parents, parents[locale], (steps - 1) as nat);
        assert(all == seq![locale] + rest);
        assert forall|i: int| 0 <= i <= steps implies parents.contains_key(#[trigger] all[i])
            && ancestor(parents, locale, i as nat) == Some(all[i]) by {
            if i > 0 {
                assert(all[i] == rest[i - 1]);
                assert(parents.contains_key(rest[i - 1]));
            }
        }
    }
}

/// In a map without cycles every way up comes to a root, after no more
/// parents than the map has locales with a parent.
pub proof fn lemma_acyclic_reaches_root(
    parents: Map<Seq<u8>, Seq<u8>>,
    locale: Seq<u8>,
    steps: nat,
)
    requires
        acyclic(parents),
        parents.dom().finite(),
        parents.dom().len() <= steps,
    ensures
        reaches_root(parents, locale, steps),
{
    if !reaches_root(parents, locale, steps) {
        let met = walk(parents, locale, steps);
        lemma_walk_without_root(parents, locale, steps);
        if met.no_duplicates() {
            met.unique_seq_to_set();
            assert(met.to_set().subset_of(parents.dom())) by {
                assert forall|key: Seq<u8>| met.to_set().contains(key) implies parents.dom().contains(
                    key,
                ) by {
                    let i = met.index_of(key);
                    assert(parents.contains_key(met[i]));
                }
            }
            lemma_len_subset(met.to_set(), parents.dom());
            assert(false);
        } else {
            let (i, j) = choose|i: int, j: int|
                0 <= i < met.len() && 0 <= j < met.len() && i != j && met[i] == met[j];
            let (low, high) = if i < j {
                (i, j)
            } else {
                (j, i)
            };
            assert(ancestor(parents, locale, low as nat) == Some(met[low]));
            assert(ancestor(parents, locale, high as nat) == Some(met[high]));
            lemma_ancestor_of_ancestor(parents, locale, low as nat, (high - low) as nat);
            assert(ancestor(parents, met[low], (high - low) as nat) == Some(met[low]));
            assert(false);
        }
    }
}

/// In a map without cycles, a chain that does not follow more than
/// `MAX_STEPS` parents ends at a locale that has no parent.
pub proof fn lemma_chain_ends_at_root(parents: Map<Seq<u8>, Seq<u8>>, locale: Seq<u8>)
    requires
        acyclic(parents),
        reaches_root(parents, locale, MAX_STEPS as nat),
    ensures
        !parents.contains_key(walk(parents, locale, MAX_STEPS as nat).last()),
{
    lemma_walk(parents, locale, MAX_STEPS as nat);
}

/// The map from each locale to its parent. A locale that is no key has no
/// parent: it is a root.
#[derive(Debug, PartialEq, Eq)]
pub struct FallbackMap<'a> {
    parents: SortedMap<'a, VarSequence<'a>>,
}

impl<'a> View for FallbackMap<'a> {
    type V = Map<Seq<u8>, Seq<u8>>;

    /// The parent of each locale that has one, locales as their bytes.
    closed spec fn view(&self) -> Map<Seq<u8>, Seq<u8>> {
        self.parents@
    }
}

impl<'a> FallbackMap<'a> {
    /// The locales that have a parent, in stored order.
    pub closed spec fn locales(&self) -> Seq<Seq<u8>> {
        self.parents.keys()
    }

    /// The parent of each of them, in the same order.
    pub closed spec fn parents(&self) -> Seq<Seq<u8>> {
        self.parents.values()
    }

    /// The map pairs each locale with the parent at the same place.
    pub open spec fn wf(&self) -> bool {
        &&& crate::varseq::strictly_ascending(self.locales())
        &&& self.locales().len() == self.parents().len()
        &&& self@ == pairs(self.locales(), self.parents())
    }

    /// Wraps `bytes` as a map of parents, or refuses the buffer where it is
    /// not a map from strings to strings.
    pub fn load(bytes: &'a [u8]) -> (r: Result<FallbackMap<'a>, InvalidLayout>)
        ensures
            r is Ok <==> map_layout::<VarSequence<'a>>(bytes@),
            r matches Ok(map) ==> map.locales() == var_contents(crate::map::key_section(bytes@))
                && map.parents() == var_contents(crate::map::value_section(bytes@)) && map.wf(),
    {
        match SortedMap::load(bytes) {
            Ok(parents) => Ok(FallbackMap { parents }),
            Err(e) => Err(e),
        }
    }

    /// The parent of `locale`, or `None` where it has none.
    pub fn get_parent(&self, locale: &str) -> (r: Option<&'a str>)
        ensures
            match r {
                Some(parent) => self@.contains_key(locale.spec_bytes()) && parent.spec_bytes()
                    == self@[locale.spec_bytes()],
                None => !self@.contains_key(locale.spec_bytes()),
            },
            self.wf(),
    {
        self.parents.get(locale)
    }

    /// The chain of `locale`: the locale itself, then its parent, and so on up
    /// to a locale that has no parent.
    ///
    /// A chain follows `MAX_STEPS` parents at most. Where the last locale
    /// reached that way still has a parent, the map is taken to be broken and
    /// no chain is returned.
    pub fn chain<'b>(&self, locale: &'b str) -> (r: Result<Vec<&'b str>, FallbackCycle>)
        where
            'a: 'b,
        ensures
            reaches_root(self@, locale.spec_bytes(), MAX_STEPS as nat) ==> r is Ok && texts(
                r->Ok_0@,
            ) == walk(self@, locale.spec_bytes(), MAX_STEPS as nat),
            !reaches_root(self@, locale.spec_bytes(), MAX_STEPS as nat) ==> r is Err,
    {
        let ghost start = locale.spec_bytes();
        let mut out: Vec<&'b str> = Vec::new();
        out.push(locale);
        let mut current: &'b str = locale;
        let mut steps: usize = 0;
        assert(texts(out@) =~= seq![start]);
        loop
            invariant
                steps <= MAX_STEPS,
                start == locale.spec_bytes(),
                out@.len() == steps + 1,
                texts(out@).last() == current.spec_bytes(),
                walk(self@, start, MAX_STEPS as nat) == texts(out@).drop_last() + walk(
                    self@,
                    current.spec_bytes(),
                    (MAX_STEPS - steps) as nat,
                ),
                reaches_root(self@, start, MAX_STEPS as nat) == reaches_root(
                    self@,
                    current.spec_bytes(),
                    (MAX_STEPS - steps) as nat,
                ),
            decreases MAX_STEPS - steps,
        {
            match self.get_parent(current) {
                None => {
                    assert(texts(out@).drop_last() + seq![current.spec_bytes()] =~= texts(out@));
                    return Ok(out);
                },
                Some(parent) => {
                    if steps == MAX_STEPS {
                        return Err(FallbackCycle);
                    }
                    let ghost before = texts(out@);
                    out.push(parent);
                    assert(texts(out@).drop_last() =~= before);
                    assert(before =~= before.drop_last() + seq![current.spec_bytes()]);
                    assert(before.drop_last() + (seq![current.spec_bytes()] + walk(
                        self@,
                        parent.spec_bytes(),
                        (MAX_STEPS - steps - 1) as nat,
                    )) =~= (before.drop_last() + seq![current.spec_bytes()]) + walk(
                        self@,
                        parent.spec_bytes(),
                        (MAX_STEPS - steps - 1) as nat,
                    ));
                    current = parent;
                    steps = steps + 1;
                },
            }
        }
    }
}

} // verus!
