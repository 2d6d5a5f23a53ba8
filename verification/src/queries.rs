//! The filter-query engine: a closed set of filter kinds, the
//! `TaggableElement` capability that nodes and ways share, and a
//! chainable builder over a shared snapshot of a collection.

use std::collections::HashMap;
use std::sync::Arc;

use vstd::pervasive::VecAdditionalExecFns;
use vstd::prelude::*;

use crate::elements::spec_get_tag;
use crate::Error;
use crate::elements::spec_way_is_polygon;
use crate::elements::str_eq;
use crate::elements::tags_lookup;
use crate::elements::Node;
use crate::elements::Way;

verus! {

/// The views of a sequence of viewable values.
pub open spec fn views_of<T: View>(s: Seq<T>) -> Seq<T::V> {
    s.map_values(|x: T| x@)
}

/// One filter of a query chain.
///
/// `ByTag(key, values)` passes elements whose tag `key` has one of the
/// listed values. `HasTag` is reserved and never constructed by the
/// builder. `IsPolygon` and `HasNodes` apply to ways only.
#[derive(Debug, PartialEq)]
pub enum FilterQuery {
    ByTag(String, Vec<String>),
    HasTag(String),
    IsPolygon,
    HasNodes(Vec<i64>),
}

pub enum FilterQueryView {
    ByTag(Seq<char>, Seq<Seq<char>>),
    HasTag(Seq<char>),
    IsPolygon,
    HasNodes(Seq<i64>),
}

impl View for FilterQuery {
    type V = FilterQueryView;

    open spec fn view(&self) -> FilterQueryView {
        match self {
            FilterQuery::ByTag(k, vs) => FilterQueryView::ByTag(
                k@,
                vs@.map_values(|s: String| s@),
            ),
            FilterQuery::HasTag(k) => FilterQueryView::HasTag(k@),
            FilterQuery::IsPolygon => FilterQueryView::IsPolygon,
            FilterQuery::HasNodes(ids) => FilterQueryView::HasNodes(ids@),
        }
    }
}

/// Clones a list of strings; the clone's entries equal the original's.
fn clone_strings(vs: &Vec<String>) -> (r: Vec<String>)
    ensures
        r@ == vs@,
{
    let mut r: Vec<String> = Vec::new();
    for i in 0..vs.len()
        invariant
            r@ == vs@.take(i as int),
    {
        r.push(vs[i].clone());
        proof {
            assert(vs@.take(i as int).push(vs@[i as int]) =~= vs@.take(i as int + 1));
        }
    }
    proof {
        assert(vs@.take(vs@.len() as int) =~= vs@);
    }
    r
}

impl Clone for FilterQuery {
    fn clone(&self) -> (res: Self)
        ensures
            res@ == self@,
    {
        match self {
            FilterQuery::ByTag(k, vs) => FilterQuery::ByTag(k.clone(), clone_strings(vs)),
            FilterQuery::HasTag(k) => FilterQuery::HasTag(k.clone()),
            FilterQuery::IsPolygon => FilterQuery::IsPolygon,
            FilterQuery::HasNodes(ids) => FilterQuery::HasNodes(ids.clone()),
        }
    }
}

/// Whether tag `key` of a tag list holds one of `values`.
pub open spec fn tag_value_in(
    tags: Seq<(Seq<char>, Seq<char>)>,
    key: Seq<char>,
    values: Seq<Seq<char>>,
) -> bool {
    match spec_get_tag(tags, key) {
        Some(v) => values.contains(v),
        None => false,
    }
}

/// Whether any entry of `nodes` is one of `ids`.
pub open spec fn any_node_in(nodes: Seq<i64>, ids: Seq<i64>) -> bool {
    exists|i: int| 0 <= i < nodes.len() && ids.contains(#[trigger] nodes[i])
}

/// The capability shared by nodes and ways: an id, tag lookup, and
/// evaluation of the filter kinds that apply to the element kind.
///
/// Applying a filter kind to an element kind it does not accept is a
/// programmer error; the builder's invariant rules it out statically,
/// so `satisfies` demands an accepted filter.
pub trait TaggableElement: View + Sized {
    /// The id of an element value.
    spec fn v_id(v: Self::V) -> i64;

    /// The tag list of an element value.
    spec fn v_tags(v: Self::V) -> Seq<(Seq<char>, Seq<char>)>;

    /// Which filter kinds may be applied to this element kind.
    spec fn v_accepts(f: FilterQueryView) -> bool;

    /// Whether an element value passes an applicable filter.
    spec fn v_matches(v: Self::V, f: FilterQueryView) -> bool;

    /// Tag filters apply to every element kind.
    proof fn tag_filters_accepted(f: FilterQueryView)
        ensures
            f is ByTag ==> Self::v_accepts(f),
    ;

    /// A tag filter passes exactly the elements whose tag holds one of
    /// the listed values.
    proof fn by_tag_means_tag_value_in(v: Self::V, key: Seq<char>, values: Seq<Seq<char>>)
        ensures
            Self::v_matches(v, FilterQueryView::ByTag(key, values)) == tag_value_in(
                Self::v_tags(v),
                key,
                values,
            ),
    ;

    fn get_id(&self) -> (r: i64)
        ensures
            r == Self::v_id(self@),
    ;

    fn get_tag_value(&self, key: &str) -> (r: Option<&str>)
        ensures
            (match spec_get_tag(Self::v_tags(self@), key@) {
                Some(v) => r matches Some(s) && s@ == v,
                None => r is None,
            }),
    ;

    fn satisfies(&self, f: &FilterQuery) -> (r: bool)
        requires
            Self::v_accepts(f@),
        ensures
            r == Self::v_matches(self@, f@),
    ;

    fn duplicate(&self) -> (r: Self)
        ensures
            r@ == self@,
    ;
}

/// Whether `v`'s characters are one of the strings in `vals`.
fn contains_str(vals: &Vec<String>, v: &str) -> (r: bool)
    ensures
        r == vals@.map_values(|s: String| s@).contains(v@),
{
    let ghost vseq = vals@.map_values(|s: String| s@);
    for i in 0..vals.len()
        invariant
            vseq == vals@.map_values(|s: String| s@),
            forall|j: int| 0 <= j < i ==> vseq[j] != v@,
    {
        if str_eq(vals[i].as_str(), v) {
            assert(vseq[i as int] == v@);
            return true;
        }
    }
    false
}

/// Whether `x` is one of the ids in `ids`.
fn contains_i64(ids: &Vec<i64>, x: i64) -> (r: bool)
    ensures
        r == ids@.contains(x),
{
    for i in 0..ids.len()
        invariant
            forall|j: int| 0 <= j < i ==> ids@[j] != x,
    {
        if ids[i] == x {
            return true;
        }
    }
    false
}

/// Evaluates a tag filter against a tag list.
fn eval_by_tag(tags: &Vec<(String, String)>, key: &String, values: &Vec<String>) -> (r: bool)
    ensures
        r == tag_value_in(
            tags@.map_values(|p: (String, String)| (p.0@, p.1@)),
            key@,
            values@.map_values(|s: String| s@),
        ),
{
    match tags_lookup(tags, key.as_str()) {
        Some(v) => contains_str(values, v),
        None => false,
    }
}

impl TaggableElement for Node {
    open spec fn v_id(v: Self::V) -> i64 {
        v.id
    }

    open spec fn v_tags(v: Self::V) -> Seq<(Seq<char>, Seq<char>)> {
        v.tags
    }

    open spec fn v_accepts(f: FilterQueryView) -> bool {
        f is ByTag
    }

    open spec fn v_matches(v: Self::V, f: FilterQueryView) -> bool {
        match f {
            FilterQueryView::ByTag(key, values) => tag_value_in(v.tags, key, values),
            _ => false,
        }
    }

    proof fn tag_filters_accepted(f: FilterQueryView) {
    }

    proof fn by_tag_means_tag_value_in(v: Self::V, key: Seq<char>, values: Seq<Seq<char>>) {
    }

    fn get_id(&self) -> (r: i64) {
        self.id
    }

    fn get_tag_value(&self, key: &str) -> (r: Option<&str>) {
        tags_lookup(&self.tags, key)
    }

    fn satisfies(&self, f: &FilterQuery) -> (r: bool) {
        match f {
            FilterQuery::ByTag(key, values) => eval_by_tag(&self.tags, key, values),
            _ => false,
        }
    }

    fn duplicate(&self) -> (r: Self) {
        self.clone()
    }
}

impl TaggableElement for Way {
    open spec fn v_id(v: Self::V) -> i64 {
        v.id
    }

    open spec fn v_tags(v: Self::V) -> Seq<(Seq<char>, Seq<char>)> {
        v.tags
    }

    open spec fn v_accepts(f: FilterQueryView) -> bool {
        !(f is HasTag)
    }

    open spec fn v_matches(v: Self::V, f: FilterQueryView) -> bool {
        match f {
            FilterQueryView::ByTag(key, values) => tag_value_in(v.tags, key, values),
            FilterQueryView::HasTag(_) => false,
            FilterQueryView::IsPolygon => spec_way_is_polygon(v),
            FilterQueryView::HasNodes(ids) => any_node_in(v.nodes, ids),
        }
    }

    proof fn tag_filters_accepted(f: FilterQueryView) {
    }

    proof fn by_tag_means_tag_value_in(v: Self::V, key: Seq<char>, values: Seq<Seq<char>>) {
    }

    fn get_id(&self) -> (r: i64) {
        self.id
    }

    fn get_tag_value(&self, key: &str) -> (r: Option<&str>) {
        tags_lookup(&self.tags, key)
    }

    fn satisfies(&self, f: &FilterQuery) -> (r: bool) {
        match f {
            FilterQuery::ByTag(key, values) => eval_by_tag(&self.tags, key, values),
            FilterQuery::HasTag(_) => false,
            FilterQuery::IsPolygon => self.is_polygon(),
            FilterQuery::HasNodes(ids) => {
                let ghost nseq = self@.nodes;
                for i in 0..self.nodes.len()
                    invariant
                        nseq == self@.nodes,
                        f@ == FilterQueryView::HasNodes(ids@),
                        forall|j: int| 0 <= j < i ==> !ids@.contains(#[trigger] nseq[j]),
                {
                    if contains_i64(ids, self.nodes[i]) {
                        assert(ids@.contains(nseq[i as int]));
                        return true;
                    }
                }
                false
            },
        }
    }

    fn duplicate(&self) -> (r: Self) {
        self.clone()
    }
}

/// Relies on `Arc::clone`: the clone shares the same allocation, so it
/// holds the same value.
#[verifier::external_body]
pub(crate) fn arc_clone<T>(a: &Arc<T>) -> (r: Arc<T>)
    ensures
        r == *a,
{
    Arc::clone(a)
}

/// The views of a list of filters.
pub open spec fn cond_views(conds: Seq<FilterQuery>) -> Seq<FilterQueryView> {
    views_of(conds)
}

/// Pushing onto a sequence pushes onto its views.
pub proof fn lemma_views_push<T: View>(s: Seq<T>, x: T)
    ensures
        views_of(s.push(x)) == views_of(s).push(x@),
{
    assert(views_of(s.push(x)) =~= views_of(s).push(x@));
}

/// An element value passes every filter of `conds`.
pub open spec fn all_match<T: TaggableElement>(v: T::V, conds: Seq<FilterQueryView>) -> bool {
    forall|j: int| 0 <= j < conds.len() ==> T::v_matches(v, #[trigger] conds[j])
}

/// Every filter of `conds` may be applied to elements of kind `T`.
pub open spec fn conds_accepted<T: TaggableElement>(conds: Seq<FilterQueryView>) -> bool {
    forall|j: int| 0 <= j < conds.len() ==> T::v_accepts(#[trigger] conds[j])
}

/// The subsequence of `items` whose members pass every filter of `conds`.
pub open spec fn filtered_by<T: TaggableElement>(
    items: Seq<T::V>,
    conds: Seq<FilterQueryView>,
) -> Seq<T::V> {
    items.filter(|v: T::V| all_match::<T>(v, conds))
}

/// No two element values of `items` share an id.
pub open spec fn unique_ids<T: TaggableElement>(items: Seq<T::V>) -> bool {
    forall|i: int, j: int|
        0 <= i < j < items.len() ==> T::v_id(#[trigger] items[i]) != T::v_id(#[trigger] items[j])
}

/// The first element value of `items` carrying `id`, if any.
pub open spec fn find_by_id<T: TaggableElement>(items: Seq<T::V>, id: i64) -> Option<T::V>
    decreases items.len(),
{
    if items.len() == 0 {
        None
    } else if T::v_id(items[0]) == id {
        Some(items[0])
    } else {
        find_by_id::<T>(items.drop_first(), id)
    }
}

proof fn lemma_find_present<T: TaggableElement>(items: Seq<T::V>, id: i64, p: int)
    requires
        0 <= p < items.len(),
        T::v_id(items[p]) == id,
        unique_ids::<T>(items),
    ensures
        find_by_id::<T>(items, id) == Some(items[p]),
    decreases p,
{
    if p == 0 {
    } else {
        assert(T::v_id(items[0]) != id);
        assert(items.drop_first()[p - 1] == items[p]);
        assert forall|i: int, j: int| 0 <= i < j < items.drop_first().len() implies T::v_id(
            #[trigger] items.drop_first()[i],
        ) != T::v_id(#[trigger] items.drop_first()[j]) by {
            assert(items.drop_first()[i] == items[i + 1]);
            assert(items.drop_first()[j] == items[j + 1]);
        }
        lemma_find_present::<T>(items.drop_first(), id, p - 1);
    }
}

proof fn lemma_find_absent<T: TaggableElement>(items: Seq<T::V>, id: i64)
    requires
        forall|i: int| 0 <= i < items.len() ==> T::v_id(#[trigger] items[i]) != id,
    ensures
        find_by_id::<T>(items, id) is None,
    decreases items.len(),
{
    if items.len() > 0 {
        assert(forall|i: int|
            0 <= i < items.drop_first().len() ==> #[trigger] items.drop_first()[i] == items[i
                + 1]);
        lemma_find_absent::<T>(items.drop_first(), id);
    }
}

/// A read-only collection of elements with an id index for point lookup.
pub struct Snapshot<T> {
    pub(crate) items: Vec<T>,
    pub(crate) index: HashMap<i64, usize>,
}

impl<T: TaggableElement> Snapshot<T> {
    /// The index maps exactly the stored ids, each to its position.
    pub open(crate) spec fn wf(&self) -> bool {
        &&& forall|i: int|
            0 <= i < self.items@.len() ==> {
                &&& self.index@.contains_key(T::v_id(#[trigger] self.items@[i]@))
                &&& self.index@[T::v_id(self.items@[i]@)] == i
            }
        &&& forall|k: i64|
            #[trigger] self.index@.contains_key(k) ==> self.index@[k] < self.items@.len()
                && T::v_id(self.items@[self.index@[k] as int]@) == k
    }

    /// The element values this snapshot holds, in storage order.
    pub open(crate) spec fn spec_items(&self) -> Seq<T::V> {
        views_of(self.items@)
    }

    pub proof fn lemma_wf_unique(&self)
        requires
            self.wf(),
        ensures
            unique_ids::<T>(self.spec_items()),
    {
        assert forall|i: int, j: int| 0 <= i < j < self.spec_items().len() implies T::v_id(
            #[trigger] self.spec_items()[i],
        ) != T::v_id(#[trigger] self.spec_items()[j]) by {
            assert(self.index@[T::v_id(self.items@[i]@)] == i);
            assert(self.index@[T::v_id(self.items@[j]@)] == j);
        }
    }

    /// Builds a snapshot from a list of elements, deduplicating by id:
    /// a later element with an already-seen id replaces the earlier one,
    /// in place. With all ids distinct the contents are the input as given.
    pub(crate) fn from_items(input: Vec<T>) -> (r: Snapshot<T>)
        ensures
            r.wf(),
            unique_ids::<T>(views_of(input@)) ==> r.spec_items() == views_of(input@),
            forall|i: int|
                0 <= i < r.spec_items().len() ==> views_of(input@).contains(
                    #[trigger] r.spec_items()[i],
                ),
            forall|j: int|
                0 <= j < input@.len() ==> find_by_id::<T>(
                    r.spec_items(),
                    T::v_id(#[trigger] views_of(input@)[j]),
                ) is Some,
    {
        broadcast use vstd::std_specs::hash::group_hash_axioms;

        let ghost iviews = views_of(input@);
        let mut items: Vec<T> = Vec::new();
        let mut index: HashMap<i64, usize> = HashMap::new();
        for n in 0..input.len()
            invariant
                iviews == views_of(input@),
                iviews.len() == input@.len(),
                forall|i: int|
                    0 <= i < items@.len() ==> {
                        &&& index@.contains_key(T::v_id(#[trigger] items@[i]@))
                        &&& index@[T::v_id(items@[i]@)] == i
                    },
                forall|k: i64|
                    #[trigger] index@.contains_key(k) ==> index@[k] < items@.len() && T::v_id(
                        items@[index@[k] as int]@,
                    ) == k,
                forall|i: int|
                    0 <= i < items@.len() ==> iviews.take(n as int).contains(
                        #[trigger] items@[i]@,
                    ),
                forall|j: int|
                    0 <= j < n ==> index@.contains_key(T::v_id(#[trigger] iviews[j])),
                unique_ids::<T>(iviews) ==> views_of(items@) == iviews.take(n as int),
        {
            let e = input[n].duplicate();
            let id = e.get_id();
            assert(e@ == iviews[n as int]);
            let prev: Option<usize> = match index.get(&id) {
                Some(p) => Some(*p),
                None => None,
            };
            match prev {
                Some(pos) => {
                    proof {
                        if unique_ids::<T>(iviews) {
                            assert(T::v_id(items@[pos as int]@) == id);
                            assert(views_of(items@)[pos as int] == iviews.take(n as int)[
                                pos as int]);
                            assert(T::v_id(iviews[pos as int]) == T::v_id(iviews[n as int]));
                            assert(false);
                        }
                    }
                    let ghost items_before = items@;
                    items.set(pos, e);
                    proof {
                        assert forall|i: int|
                            0 <= i < items@.len() implies iviews.take(n as int + 1).contains(
                            #[trigger] items@[i]@,
                        ) by {
                            if i == pos as int {
                                assert(iviews.take(n as int + 1)[n as int] == items@[i]@);
                            } else {
                                assert(iviews.take(n as int).contains(items_before[i]@));
                                let k = choose|k: int|
                                    0 <= k < n && #[trigger] iviews.take(n as int)[k]
                                        == items_before[i]@;
                                assert(iviews.take(n as int + 1)[k] == items@[i]@);
                            }
                        }
                    }
                },
                None => {
                    let pos = items.len();
                    items.push(e);
                    index.insert(id, pos);
                    proof {
                        assert forall|i: int|
                            0 <= i < items@.len() implies iviews.take(n as int + 1).contains(
                            #[trigger] items@[i]@,
                        ) by {
                            if i == pos as int {
                                assert(iviews.take(n as int + 1)[n as int] == items@[i]@);
                            } else {
                                assert(iviews.take(n as int).contains(items@[i]@));
                                let k = choose|k: int|
                                    0 <= k < n && #[trigger] iviews.take(n as int)[k] == items@[i]@;
                                assert(iviews.take(n as int + 1)[k] == items@[i]@);
                            }
                        }
                        if unique_ids::<T>(iviews) {
                            assert(views_of(items@) =~= iviews.take(n as int + 1));
                        }
                    }
                },
            }
        }
        proof {
            assert(iviews.take(iviews.len() as int) =~= iviews);
            assert forall|i: int| 0 <= i < views_of(items@).len() implies iviews.contains(
                #[trigger] views_of(items@)[i],
            ) by {
                assert(iviews.take(input@.len() as int).contains(items@[i]@));
            }
        }
        let r = Snapshot { items, index };
        proof {
            r.lemma_wf_unique();
            assert forall|j: int| 0 <= j < input@.len() implies find_by_id::<T>(
                r.spec_items(),
                T::v_id(#[trigger] iviews[j]),
            ) is Some by {
                let k = T::v_id(iviews[j]);
                assert(r.index@.contains_key(k));
                let p = r.index@[k] as int;
                assert(T::v_id(r.spec_items()[p]) == k);
                lemma_find_present::<T>(r.spec_items(), k, p);
            }
        }
        r
    }
}


/// Unfolds one filtering step at the front of a sequence.
proof fn lemma_filtered_head<T: TaggableElement>(s: Seq<T::V>, conds: Seq<FilterQueryView>)
    requires
        s.len() > 0,
    ensures
        filtered_by::<T>(s, conds) == (if all_match::<T>(s[0], conds) {
            seq![s[0]]
        } else {
            Seq::<T::V>::empty()
        }) + filtered_by::<T>(s.drop_first(), conds),
    decreases s.len(),
{
    reveal_with_fuel(Seq::filter, 3);
    let head: Seq<T::V> = if all_match::<T>(s[0], conds) {
        seq![s[0]]
    } else {
        Seq::<T::V>::empty()
    };
    if s.len() == 1 {
        assert(s.drop_last() =~= Seq::<T::V>::empty());
        assert(s.drop_first() =~= Seq::<T::V>::empty());
        assert(s.last() == s[0]);
        if all_match::<T>(s[0], conds) {
            assert(filtered_by::<T>(s, conds) =~= head);
            assert(head + filtered_by::<T>(s.drop_first(), conds) =~= head);
        } else {
            assert(filtered_by::<T>(s, conds) =~= Seq::<T::V>::empty());
            assert(head + filtered_by::<T>(s.drop_first(), conds) =~= Seq::<T::V>::empty());
        }
    } else {
        lemma_filtered_head::<T>(s.drop_last(), conds);
        assert(s.drop_last()[0] == s[0]);
        assert(s.drop_last().drop_first() =~= s.drop_first().drop_last());
        assert(s.drop_first().last() == s.last());
        if all_match::<T>(s.last(), conds) {
            assert(filtered_by::<T>(s, conds) == filtered_by::<T>(s.drop_last(), conds).push(
                s.last(),
            ));
            assert(filtered_by::<T>(s.drop_first(), conds) == filtered_by::<T>(
                s.drop_first().drop_last(),
                conds,
            ).push(s.last()));
            assert((head + filtered_by::<T>(s.drop_first().drop_last(), conds)).push(s.last())
                =~= head + filtered_by::<T>(s.drop_first().drop_last(), conds).push(s.last()));
        } else {
            assert(filtered_by::<T>(s, conds) == filtered_by::<T>(s.drop_last(), conds));
            assert(filtered_by::<T>(s.drop_first(), conds) == filtered_by::<T>(
                s.drop_first().drop_last(),
                conds,
            ));
        }
    }
}

/// Filtering only ever keeps elements of the sequence.
pub proof fn lemma_filtered_subset<T: TaggableElement>(s: Seq<T::V>, conds: Seq<FilterQueryView>)
    ensures
        forall|v: T::V| filtered_by::<T>(s, conds).contains(v) ==> s.contains(v),
    decreases s.len(),
{
    reveal_with_fuel(Seq::filter, 2);
    if s.len() > 0 {
        lemma_filtered_subset::<T>(s.drop_last(), conds);
        let g = filtered_by::<T>(s.drop_last(), conds);
        assert forall|v: T::V| filtered_by::<T>(s, conds).contains(v) implies s.contains(v) by {
            let f = filtered_by::<T>(s, conds);
            let k = choose|k: int| 0 <= k < f.len() && f[k] == v;
            if all_match::<T>(s.last(), conds) {
                assert(f == g.push(s.last()));
                if k < g.len() {
                    assert(g[k] == v);
                    assert(g.contains(v));
                    assert(s.drop_last().contains(v));
                    let j = choose|j: int| 0 <= j < s.drop_last().len() && s.drop_last()[j] == v;
                    assert(s.drop_last()[j] == s[j]);
                    assert(s[j] == v);
                } else {
                    assert(v == s.last());
                    assert(s[s.len() - 1] == v);
                }
            } else {
                assert(f == g);
                assert(g.contains(v));
                assert(s.drop_last().contains(v));
                let j = choose|j: int| 0 <= j < s.drop_last().len() && s.drop_last()[j] == v;
                assert(s.drop_last()[j] == s[j]);
                assert(s[j] == v);
            }
        }
    }
}

/// The query engine's exactness law: filtering a snapshot by one tag
/// filter `ByTag(key, values)` returns exactly the elements whose tag
/// `key` holds one of `values`; every element left out either lacks
/// the tag or holds another value.
pub proof fn lemma_by_tag_in_get_exact<T: TaggableElement>(
    items: Seq<T::V>,
    key: Seq<char>,
    values: Seq<Seq<char>>,
)
    ensures
        forall|v: T::V|
            filtered_by::<T>(items, seq![FilterQueryView::ByTag(key, values)]).contains(v)
                <==> items.contains(v) && tag_value_in(T::v_tags(v), key, values),
{
    let conds = seq![FilterQueryView::ByTag(key, values)];
    lemma_filtered_subset::<T>(items, conds);
    assert forall|v: T::V| #[trigger] all_match::<T>(v, conds) == tag_value_in(
        T::v_tags(v),
        key,
        values,
    ) by {
        T::by_tag_means_tag_value_in(v, key, values);
        if tag_value_in(T::v_tags(v), key, values) {
            assert(forall|j: int| 0 <= j < conds.len() ==> T::v_matches(v, #[trigger] conds[j]));
        } else {
            assert(!T::v_matches(v, conds[0]));
        }
    }
    assert forall|v: T::V|
        filtered_by::<T>(items, conds).contains(v) <==> items.contains(v) && tag_value_in(
            T::v_tags(v),
            key,
            values,
        ) by {
        if filtered_by::<T>(items, conds).contains(v) {
            let k = choose|k: int|
                0 <= k < filtered_by::<T>(items, conds).len() && filtered_by::<T>(
                    items,
                    conds,
                )[k] == v;
            items.lemma_filter_pred(|x: T::V| all_match::<T>(x, conds), k);
            assert(all_match::<T>(v, conds));
        }
        if items.contains(v) && tag_value_in(T::v_tags(v), key, values) {
            let k = choose|k: int| 0 <= k < items.len() && items[k] == v;
            items.lemma_filter_contains(|x: T::V| all_match::<T>(x, conds), k);
        }
    }
}

/// An empty filter list passes everything.
pub proof fn lemma_filtered_by_no_conditions<T: TaggableElement>(s: Seq<T::V>)
    ensures
        filtered_by::<T>(s, Seq::<FilterQueryView>::empty()) == s,
    decreases s.len(),
{
    reveal_with_fuel(Seq::filter, 2);
    if s.len() > 0 {
        lemma_filtered_by_no_conditions::<T>(s.drop_last());
        assert(all_match::<T>(s.last(), Seq::<FilterQueryView>::empty()));
        assert(s.drop_last().push(s.last()) =~= s);
    }
}

/// Passes an element through every filter of `conds`.
fn matches_all<T: TaggableElement>(e: &T, conds: &Vec<FilterQuery>) -> (r: bool)
    requires
        conds_accepted::<T>(cond_views(conds@)),
    ensures
        r == all_match::<T>(e@, cond_views(conds@)),
{
    let ghost cviews = cond_views(conds@);
    let mut ok = true;
    for j in 0..conds.len()
        invariant
            cviews == cond_views(conds@),
            conds_accepted::<T>(cviews),
            ok == (forall|q: int| 0 <= q < j ==> T::v_matches(e@, #[trigger] cviews[q])),
    {
        assert(cviews[j as int] == conds@[j as int]@);
        let s = e.satisfies(&conds[j]);
        proof {
            if ok && s {
                assert forall|q: int| 0 <= q < j + 1 implies T::v_matches(
                    e@,
                    #[trigger] cviews[q],
                ) by {}
            }
        }
        ok = ok && s;
    }
    ok
}

/// Clones a filter list; the clone's views equal the original's.
fn clone_conds(conds: &Vec<FilterQuery>) -> (r: Vec<FilterQuery>)
    ensures
        cond_views(r@) == cond_views(conds@),
{
    let mut r: Vec<FilterQuery> = Vec::new();
    for i in 0..conds.len()
        invariant
            cond_views(r@) == cond_views(conds@).take(i as int),
    {
        let c = conds[i].clone();
        let ghost ccopy = c;
        let ghost pre = r@;
        r.push(c);
        proof {
            lemma_views_push(pre, ccopy);
            assert(cond_views(conds@).take(i as int).push(conds@[i as int]@) =~= cond_views(
                conds@,
            ).take(i as int + 1));
        }
    }
    proof {
        assert(cond_views(conds@).take(conds@.len() as int) =~= cond_views(conds@));
    }
    r
}

/// Clones a list of elements; the clone's views equal the original's.
pub(crate) fn dup_items<T: TaggableElement>(items: &Vec<T>) -> (r: Vec<T>)
    ensures
        views_of(r@) == views_of(items@),
{
    let mut r: Vec<T> = Vec::new();
    for i in 0..items.len()
        invariant
            views_of(r@) == views_of(items@).take(i as int),
    {
        let e = items[i].duplicate();
        let ghost ecopy = e;
        let ghost pre = r@;
        r.push(e);
        proof {
            lemma_views_push(pre, ecopy);
            assert(views_of(items@).take(i as int).push(items@[i as int]@) =~= views_of(
                items@,
            ).take(i as int + 1));
        }
    }
    proof {
        assert(views_of(items@).take(items@.len() as int) =~= views_of(items@));
    }
    r
}

/// A restartable pass over a builder's snapshot that yields only the
/// elements passing every accumulated filter, with their ids.
pub struct BuilderIter<T: TaggableElement> {
    pub(crate) items: Vec<T>,
    pub(crate) pos: usize,
    pub(crate) conditions: Vec<FilterQuery>,
}

impl<T: TaggableElement> BuilderIter<T> {
    /// The element values not yet visited.
    pub open(crate) spec fn remaining(&self) -> Seq<T::V> {
        views_of(self.items@).skip(self.pos as int)
    }

    /// The views of this pass's filters.
    pub open(crate) spec fn conds(&self) -> Seq<FilterQueryView> {
        cond_views(self.conditions@)
    }

    pub open(crate) spec fn wf(&self) -> bool {
        self.pos <= self.items@.len() && conds_accepted::<T>(self.conds())
    }

    fn new(items: Vec<T>, conditions: Vec<FilterQuery>) -> (r: BuilderIter<T>)
        requires
            conds_accepted::<T>(cond_views(conditions@)),
        ensures
            r.wf(),
            r.remaining() == views_of(items@),
            r.conds() == cond_views(conditions@),
    {
        let r = BuilderIter { items, pos: 0usize, conditions };
        proof {
            assert(views_of(r.items@).skip(0) =~= views_of(r.items@));
        }
        r
    }

    /// Yields the id and a copy of the next element that passes every
    /// filter, or nothing when no later element does.
    pub fn next(&mut self) -> (r: Option<(i64, T)>)
        requires
            old(self).wf(),
        ensures
            final(self).wf(),
            final(self).conds() == old(self).conds(),
            (match r {
                Some(p) => {
                    &&& all_match::<T>(p.1@, old(self).conds())
                    &&& p.0 == T::v_id(p.1@)
                    &&& filtered_by::<T>(old(self).remaining(), old(self).conds()) == seq![p.1@]
                        + filtered_by::<T>(final(self).remaining(), old(self).conds())
                },
                None => {
                    &&& filtered_by::<T>(old(self).remaining(), old(self).conds()).len() == 0
                    &&& final(self).remaining().len() == 0
                },
            }),
    {
        let ghost items0 = views_of(self.items@);
        let ghost conds0 = cond_views(self.conditions@);
        let ghost pos0 = self.pos;
        while self.pos < self.items.len()
            invariant
                views_of(old(self).items@) == items0,
                cond_views(old(self).conditions@) == conds0,
                old(self).pos == pos0,
                old(self).wf(),
                views_of(self.items@) == items0,
                cond_views(self.conditions@) == conds0,
                conds_accepted::<T>(conds0),
                pos0 <= self.pos <= self.items@.len(),
                filtered_by::<T>(items0.skip(pos0 as int), conds0) == filtered_by::<T>(
                    items0.skip(self.pos as int),
                    conds0,
                ),
            decreases self.items@.len() - self.pos,
        {
            let matched = matches_all(&self.items[self.pos], &self.conditions);
            let cur = self.pos;
            self.pos = cur + 1;
            proof {
                assert(items0.skip(cur as int).len() > 0);
                assert(items0.skip(cur as int)[0] == items0[cur as int]);
                assert(items0.skip(cur as int).drop_first() =~= items0.skip(cur as int + 1));
                lemma_filtered_head::<T>(items0.skip(cur as int), conds0);
            }
            if matched {
                let e = self.items[cur].duplicate();
                let id = e.get_id();
                proof {
                    assert(e@ == items0[cur as int]);
                    assert(seq![e@] + filtered_by::<T>(items0.skip(cur as int + 1), conds0)
                        == filtered_by::<T>(items0.skip(cur as int), conds0));
                }
                return Some((id, e));
            }
            proof {
                assert(Seq::<T::V>::empty() + filtered_by::<T>(
                    items0.skip(cur as int + 1),
                    conds0,
                ) =~= filtered_by::<T>(items0.skip(cur as int + 1), conds0));
            }
        }
        proof {
            assert(items0.skip(self.items@.len() as int) =~= Seq::<T::V>::empty());
            reveal_with_fuel(Seq::filter, 2);
            assert(filtered_by::<T>(Seq::<T::V>::empty(), conds0).len() == 0);
        }
        None
    }
}

/// A chainable, deferred query over a shared snapshot of a collection.
///
/// Chain steps share the snapshot by reference count and never mutate
/// it; each step appends to its own private filter list only.
pub struct Builder<T: TaggableElement> {
    pub(crate) storage: Arc<Snapshot<T>>,
    pub(crate) conditions: Vec<FilterQuery>,
}

impl<T: TaggableElement> Builder<T> {
    /// The element values of the shared snapshot, in storage order.
    pub open(crate) spec fn spec_items(&self) -> Seq<T::V> {
        (*self.storage).spec_items()
    }

    /// The views of the accumulated filters, in the order appended.
    pub open(crate) spec fn spec_conditions(&self) -> Seq<FilterQueryView> {
        cond_views(self.conditions@)
    }

    pub open(crate) spec fn wf(&self) -> bool {
        (*self.storage).wf() && conds_accepted::<T>(self.spec_conditions())
    }

    /// Builds a query over a fresh snapshot of `items`, with no filters.
    /// Elements sharing an id are deduplicated, the later one winning.
    pub fn new(items: Vec<T>) -> (r: Builder<T>)
        ensures
            r.wf(),
            r.spec_conditions() == Seq::<FilterQueryView>::empty(),
            unique_ids::<T>(views_of(items@)) ==> r.spec_items() == views_of(items@),
            forall|i: int|
                0 <= i < r.spec_items().len() ==> views_of(items@).contains(
                    #[trigger] r.spec_items()[i],
                ),
    {
        let snap = Snapshot::from_items(items);
        let r = Builder { storage: Arc::new(snap), conditions: Vec::new() };
        proof {
            assert(cond_views(r.conditions@) =~= Seq::<FilterQueryView>::empty());
        }
        r
    }

    pub(crate) fn from_shared(storage: &Arc<Snapshot<T>>) -> (r: Builder<T>)
        requires
            (**storage).wf(),
        ensures
            r.wf(),
            r.spec_conditions() == Seq::<FilterQueryView>::empty(),
            r.spec_items() == (**storage).spec_items(),
    {
        let r = Builder { storage: arc_clone(storage), conditions: Vec::new() };
        proof {
            assert(cond_views(r.conditions@) =~= Seq::<FilterQueryView>::empty());
        }
        r
    }

    /// A fresh pass over the snapshot under the accumulated filters;
    /// repeated calls restart from the beginning.
    pub fn iter(&self) -> (r: BuilderIter<T>)
        requires
            self.wf(),
        ensures
            r.wf(),
            r.remaining() == self.spec_items(),
            r.conds() == self.spec_conditions(),
    {
        let items = dup_items(&(*self.storage).items);
        let conditions = clone_conds(&self.conditions);
        BuilderIter::new(items, conditions)
    }

    /// A copy of the accumulated filter list.
    pub fn filters(&self) -> (r: Vec<FilterQuery>)
        ensures
            cond_views(r@) == self.spec_conditions(),
    {
        clone_conds(&self.conditions)
    }
}

impl Builder<Way> {
    /// Appends a filter passing ways that reference any of `node_ids`.
    pub fn contain_nodes(self, node_ids: Vec<i64>) -> (r: Self)
        requires
            self.wf(),
        ensures
            r.wf(),
            r.spec_items() == self.spec_items(),
            r.spec_conditions() == self.spec_conditions().push(
                FilterQueryView::HasNodes(node_ids@),
            ),
    {
        let mut b = self;
        let f = FilterQuery::HasNodes(node_ids);
        let ghost fcopy = f;
        let ghost pre = b.conditions@;
        b.conditions.push(f);
        proof {
            lemma_views_push(pre, fcopy);
        }
        b
    }

    /// Appends the polygon filter: only ways classified as areas pass.
    pub fn is_poly(self) -> (r: Self)
        requires
            self.wf(),
        ensures
            r.wf(),
            r.spec_items() == self.spec_items(),
            r.spec_conditions() == self.spec_conditions().push(FilterQueryView::IsPolygon),
    {
        let mut b = self;
        let f = FilterQuery::IsPolygon;
        let ghost fcopy = f;
        let ghost pre = b.conditions@;
        b.conditions.push(f);
        proof {
            lemma_views_push(pre, fcopy);
        }
        b
    }
}

/// The chainable filter operations shared by node and way queries.
///
/// Filters accumulate; `get` evaluates them all conjunctively against
/// every element of the snapshot, and `by_id` looks an element up
/// directly, ignoring the accumulated filters.
pub trait QueryBuilder<T: TaggableElement>: Sized {
    /// The element values of the underlying snapshot.
    spec fn q_items(&self) -> Seq<T::V>;

    /// The views of the accumulated filters.
    spec fn q_conditions(&self) -> Seq<FilterQueryView>;

    spec fn q_wf(&self) -> bool;

    /// Appends one filter to this builder's own list.
    fn append_filter(&mut self, f: FilterQuery)
        requires
            old(self).q_wf(),
            T::v_accepts(f@),
        ensures
            final(self).q_wf(),
            final(self).q_items() == old(self).q_items(),
            final(self).q_conditions() == old(self).q_conditions().push(f@),
    ;

    /// Appends a filter passing elements whose tag `key` equals `value`.
    fn by_tag_eq(self, key: &str, value: &str) -> (r: Self)
        requires
            self.q_wf(),
        ensures
            r.q_wf(),
            r.q_items() == self.q_items(),
            r.q_conditions() == self.q_conditions().push(
                FilterQueryView::ByTag(key@, seq![value@]),
            ),
    ;

    /// Appends a filter passing elements whose tag `key` holds one of
    /// `values`.
    fn by_tag_in(self, key: &str, values: Vec<&str>) -> (r: Self)
        requires
            self.q_wf(),
        ensures
            r.q_wf(),
            r.q_items() == self.q_items(),
            r.q_conditions() == self.q_conditions().push(
                FilterQueryView::ByTag(key@, values@.map_values(|s: &str| s@)),
            ),
    ;

    /// The elements passing every accumulated filter, in storage order.
    fn get(&self) -> (r: Vec<T>)
        requires
            self.q_wf(),
        ensures
            views_of(r@) == filtered_by::<T>(self.q_items(), self.q_conditions()),
    ;

    /// Point lookup by id, ignoring the accumulated filters; absent ids
    /// are reported, never defaulted.
    fn by_id(&self, id: i64) -> (r: Result<T, Error>)
        requires
            self.q_wf(),
        ensures
            (match r {
                Ok(e) => find_by_id::<T>(self.q_items(), id) == Some(e@),
                Err(er) => er == Error::NotFound && find_by_id::<T>(self.q_items(), id) is None,
            }),
    ;
}

impl<T: TaggableElement> QueryBuilder<T> for Builder<T> {
    open spec fn q_items(&self) -> Seq<T::V> {
        self.spec_items()
    }

    open spec fn q_conditions(&self) -> Seq<FilterQueryView> {
        self.spec_conditions()
    }

    open spec fn q_wf(&self) -> bool {
        self.wf()
    }

    fn append_filter(&mut self, f: FilterQuery) {
        let ghost fcopy = f;
        let ghost pre = self.conditions@;
        self.conditions.push(f);
        proof {
            lemma_views_push(pre, fcopy);
        }
    }

    fn by_tag_eq(self, key: &str, value: &str) -> (r: Self) {
        let mut values: Vec<String> = Vec::new();
        values.push(value.to_owned());
        let f = FilterQuery::ByTag(key.to_owned(), values);
        proof {
            assert(f@ matches FilterQueryView::ByTag(k, vs) && k == key@ && vs =~= seq![value@]);
            T::tag_filters_accepted(f@);
        }
        let ghost fcopy = f;
        let mut b = self;
        let ghost pre = b.conditions@;
        b.conditions.push(f);
        proof {
            lemma_views_push(pre, fcopy);
        }
        b
    }

    fn by_tag_in(self, key: &str, values: Vec<&str>) -> (r: Self) {
        let mut owned: Vec<String> = Vec::new();
        let ghost target = values@.map_values(|s: &str| s@);
        proof {
            assert(views_of(values@) =~= target);
        }
        for i in 0..values.len()
            invariant
                target == values@.map_values(|s: &str| s@),
                views_of(values@) == target,
                views_of(owned@) == target.take(i as int),
        {
            let w = values[i].to_owned();
            let ghost wcopy = w;
            let ghost pre = owned@;
            owned.push(w);
            proof {
                lemma_views_push(pre, wcopy);
                assert(target.take(i as int).push(values@[i as int]@) =~= target.take(
                    i as int + 1,
                ));
            }
        }
        proof {
            assert(target.take(values@.len() as int) =~= target);
        }
        let f = FilterQuery::ByTag(key.to_owned(), owned);
        proof {
            T::tag_filters_accepted(f@);
        }
        let ghost fcopy = f;
        let mut b = self;
        let ghost pre = b.conditions@;
        b.conditions.push(f);
        proof {
            lemma_views_push(pre, fcopy);
        }
        b
    }

    fn get(&self) -> (r: Vec<T>) {
        let ghost items0 = self.spec_items();
        let ghost conds0 = self.spec_conditions();
        let snap = &*self.storage;
        let mut r: Vec<T> = Vec::new();
        proof {
            reveal_with_fuel(Seq::filter, 2);
            assert(items0.take(0) =~= Seq::<T::V>::empty());
            assert(views_of(r@) =~= filtered_by::<T>(items0.take(0), conds0));
        }
        for i in 0..snap.items.len()
            invariant
                items0 == views_of(snap.items@),
                conds0 == cond_views(self.conditions@),
                conds_accepted::<T>(conds0),
                views_of(r@) == filtered_by::<T>(items0.take(i as int), conds0),
        {
            let matched = matches_all(&snap.items[i], &self.conditions);
            proof {
                reveal_with_fuel(Seq::filter, 2);
                assert(items0.take(i as int + 1).drop_last() =~= items0.take(i as int));
                assert(items0.take(i as int + 1).last() == items0[i as int]);
            }
            if matched {
                r.push(snap.items[i].duplicate());
                proof {
                    assert(views_of(r@) =~= filtered_by::<T>(items0.take(i as int), conds0).push(
                        items0[i as int],
                    ));
                }
            }
        }
        proof {
            assert(items0.take(items0.len() as int) =~= items0);
        }
        r
    }

    fn by_id(&self, id: i64) -> (r: Result<T, Error>) {
        broadcast use vstd::std_specs::hash::group_hash_axioms;

        let snap = &*self.storage;
        match snap.index.get(&id) {
            Some(p) => {
                let pos: usize = *p;
                let e = snap.items[pos].duplicate();
                proof {
                    snap.lemma_wf_unique();
                    assert(T::v_id(snap.spec_items()[pos as int]) == id);
                    lemma_find_present::<T>(snap.spec_items(), id, pos as int);
                }
                Ok(e)
            },
            None => {
                proof {
                    assert forall|i: int| 0 <= i < snap.spec_items().len() implies T::v_id(
                        #[trigger] snap.spec_items()[i],
                    ) != id by {
                        assert(snap.index@.contains_key(T::v_id(snap.items@[i]@)));
                    }
                    lemma_find_absent::<T>(snap.spec_items(), id);
                }
                Err(Error::NotFound)
            },
        }
    }
}

} // verus!
