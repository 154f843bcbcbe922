//! A small player catalog filter: a predicate wrapped in a condition
//! struct, applied to every element of a slice.

use vstd::prelude::*;

verus! {

pub struct Player {
    pub name: String,
    pub position: String,
}

impl Clone for Player {
    fn clone(&self) -> (r: Self)
        ensures
            r == *self,
    {
        Player { name: self.name.clone(), position: self.position.clone() }
    }
}

/// Wraps the predicate a filter applies.
pub struct FilterCondition<F> where F: Fn(&Player) -> bool {
    pub condition: F,
}

impl<F> FilterCondition<F> where F: Fn(&Player) -> bool {
    /// Applies the wrapped predicate to one item.
    pub fn is_match(&self, item: &Player) -> (r: bool)
        requires
            call_requires(self.condition, (item,)),
        ensures
            call_ensures(self.condition, (item,), r),
    {
        (self.condition)(item)
    }
}

/// One boolean verdict per element, each a possible answer of the
/// predicate on that element.
pub open spec fn filter_verdicts<F: Fn(&Player) -> bool>(
    f: F,
    s: Seq<Player>,
    keep: Seq<bool>,
) -> bool {
    &&& keep.len() == s.len()
    &&& forall|i: int| 0 <= i < s.len() ==> call_ensures(f, (&s[i],), #[trigger] keep[i])
}

/// The elements whose verdict is true, in order, with the others dropped.
pub open spec fn filtered(s: Seq<Player>, keep: Seq<bool>) -> Seq<Player>
    decreases s.len(),
{
    if s.len() == 0 || keep.len() == 0 {
        Seq::empty()
    } else if keep[0] {
        seq![s[0]] + filtered(s.skip(1), keep.skip(1))
    } else {
        filtered(s.skip(1), keep.skip(1))
    }
}

/// Keeps exactly the elements the condition answers true for: the result
/// is the input subsequence selected by one verdict per element.
pub fn custom_filter<F>(collection: &[Player], filter: &FilterCondition<F>) -> (r: Vec<Player>)
    where F: Fn(&Player) -> bool
    requires
        forall|i: int|
            0 <= i < collection@.len() ==> call_requires(filter.condition, (&collection@[i],)),
    ensures
        exists|keep: Seq<bool>|
            filter_verdicts(filter.condition, collection@, keep) && r@ == filtered(
                collection@,
                keep,
            ),
{
    let mut out: Vec<Player> = Vec::new();
    let ghost mut keep: Seq<bool> = Seq::empty();
    let mut i: usize = 0;
    while i < collection.len()
        invariant
            0 <= i <= collection@.len(),
            keep.len() == i,
            forall|k: int|
                0 <= k < i ==> call_ensures(filter.condition, (&collection@[k],), #[trigger] keep[k]),
            forall|k: int|
                0 <= k < collection@.len() ==> call_requires(
                    filter.condition,
                    (&collection@[k],),
                ),
            out@ == filtered(collection@.take(i as int), keep),
        decreases collection@.len() - i,
    {
        let item = &collection[i];
        let verdict = filter.is_match(item);
        let ghost keep0 = keep;
        proof {
            keep = keep.push(verdict);
            assert(keep.take(i as int) =~= keep0);
            assert(keep[i as int] == verdict);
        }
        if verdict {
            out.push(item.clone());
        }
        proof {
            lemma_filtered_snoc(collection@, keep, i as int);
        }
        i = i + 1;
    }
    proof {
        assert(collection@.take(collection@.len() as int) =~= collection@);
    }
    out
}

/// Extending the prefix and its verdicts by one element appends that
/// element exactly when its verdict is true.
proof fn lemma_filtered_snoc(s: Seq<Player>, keep: Seq<bool>, i: int)
    requires
        0 <= i < s.len(),
        keep.len() == i + 1,
    ensures
        keep[i] ==> filtered(s.take(i + 1), keep) == filtered(s.take(i), keep.take(i)).push(s[i]),
        !keep[i] ==> filtered(s.take(i + 1), keep) == filtered(s.take(i), keep.take(i)),
    decreases i,
{
    if i == 0 {
        assert(s.take(1) =~= seq![s[0]]);
        assert(s.take(1).skip(1) =~= Seq::<Player>::empty());
        assert(keep.skip(1) =~= Seq::<bool>::empty());
        assert(s.take(0) =~= Seq::<Player>::empty());
        assert(keep.take(0) =~= Seq::<bool>::empty());
        assert(filtered(Seq::<Player>::empty(), Seq::<bool>::empty()) =~= Seq::<Player>::empty());
        if keep[0] {
            assert(filtered(s.take(1), keep) =~= seq![s[0]] + Seq::<Player>::empty());
            assert(seq![s[0]] + Seq::<Player>::empty() =~= seq![s[0]]);
            assert(Seq::<Player>::empty().push(s[0]) =~= seq![s[0]]);
        }
    } else {
        lemma_filtered_snoc(s.skip(1), keep.skip(1), i - 1);
        assert(s.take(i + 1)[0] == s[0]);
        assert(s.take(i + 1).skip(1) =~= s.skip(1).take(i));
        assert(s.take(i)[0] == s[0]);
        assert(s.take(i).skip(1) =~= s.skip(1).take(i - 1));
        assert(keep.take(i).skip(1) =~= keep.skip(1).take(i - 1));
        assert(keep.skip(1)[i - 1] == keep[i]);
        assert(s.skip(1)[i - 1] == s[i]);
        assert(keep.take(i)[0] == keep[0]);
        let a = filtered(s.skip(1).take(i - 1), keep.skip(1).take(i - 1));
        if keep[0] {
            assert(filtered(s.take(i + 1), keep) == seq![s[0]] + filtered(
                s.skip(1).take(i),
                keep.skip(1),
            ));
            assert(filtered(s.take(i), keep.take(i)) == seq![s[0]] + a);
            if keep[i] {
                assert(seq![s[0]] + a.push(s[i]) =~= (seq![s[0]] + a).push(s[i]));
            }
        } else {
            assert(filtered(s.take(i + 1), keep) == filtered(s.skip(1).take(i), keep.skip(1)));
            assert(filtered(s.take(i), keep.take(i)) == a);
        }
    }
}

} // verus!
