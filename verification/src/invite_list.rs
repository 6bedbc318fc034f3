//! The builder of the invite list: which customers are within range, and in
//! which order they are listed.
use crate::customer::{
    customer_views, customers_of, customers_outcome, Customer, CustomerView, InviteError,
};
use crate::customer_data::{lemma_one_bad_line_fails_all, record_of};
use crate::lines::lines_of;
use vstd::prelude::*;

verus! {

/// A distance is within a range that is `None`, and within `Some(limit)`
/// where it is at most `limit`.
pub open spec fn within_range(distance: i64, range: Option<i64>) -> bool {
    match range {
        None => true,
        Some(limit) => distance <= limit,
    }
}

/// The customers of `customers` that are within `range`, in their order.
pub open spec fn in_range(customers: Seq<CustomerView>, range: Option<i64>) -> Seq<CustomerView> {
    customers.filter(|c: CustomerView| within_range(c.distance_from_dublin, range))
}

/// `rest` with `c` put in front of the first customer whose user id is not
/// below that of `c`.
pub open spec fn placed(c: CustomerView, rest: Seq<CustomerView>) -> Seq<CustomerView>
    decreases rest.len(),
{
    if rest.len() == 0 || c.user_id <= rest[0].user_id {
        seq![c] + rest
    } else {
        seq![rest[0]] + placed(c, rest.skip(1))
    }
}

/// The customers of `customers` by ascending user id; those with one user id
/// stay in the order in which they stand in `customers`.
pub open spec fn sorted_by_user_id(customers: Seq<CustomerView>) -> Seq<CustomerView>
    decreases customers.len(),
{
    if customers.len() == 0 {
        customers
    } else {
        placed(customers[0], sorted_by_user_id(customers.skip(1)))
    }
}

/// The user ids of `customers` never go down.
pub open spec fn ascending(customers: Seq<CustomerView>) -> bool {
    forall|i: int, j: int|
        0 <= i <= j < customers.len() ==> customers[i].user_id <= customers[j].user_id
}

/// The customers of `customers` that have the user id `user_id`, in their
/// order.
pub open spec fn with_user_id(customers: Seq<CustomerView>, user_id: i64) -> Seq<CustomerView> {
    customers.filter(|c: CustomerView| c.user_id == user_id)
}

/// The invite list of customers already measured: those within range, by
/// user id where `sort` is set and in their own order where it is not.
pub open spec fn invited(customers: Seq<CustomerView>, range: Option<i64>, sort: bool) -> Seq<
    CustomerView,
> {
    if sort {
        sorted_by_user_id(in_range(customers, range))
    } else {
        in_range(customers, range)
    }
}

/// The invite list of a text and the distances of its lines.
pub open spec fn invite_list_of(
    text: Seq<char>,
    distances: Seq<i64>,
    range: Option<i64>,
    sort: bool,
) -> Result<Seq<CustomerView>, InviteError> {
    match customers_of(text, distances) {
        Err(e) => Err(e),
        Ok(customers) => Ok(invited(customers, range, sort)),
    }
}

/// Without a range every customer stays.
pub proof fn lemma_no_range_keeps_all(customers: Seq<CustomerView>)
    ensures
        in_range(customers, None) == customers,
    decreases customers.len(),
{
    reveal(Seq::filter);
    if customers.len() > 0 {
        lemma_no_range_keeps_all(customers.drop_last());
        assert(customers.drop_last().push(customers.last()) =~= customers);
    }
}

/// Every customer that is kept is within range, and every customer within
/// range is kept: none beyond the range is listed.
pub proof fn lemma_in_range_keeps_exactly(customers: Seq<CustomerView>, range: Option<i64>)
    ensures
        forall|i: int|
            0 <= i < in_range(customers, range).len() ==> within_range(
                (#[trigger] in_range(customers, range)[i]).distance_from_dublin,
                range,
            ),
        forall|i: int|
            0 <= i < in_range(customers, range).len() ==> customers.contains(
                #[trigger] in_range(customers, range)[i],
            ),
        forall|i: int|
            0 <= i < customers.len() && within_range(customers[i].distance_from_dublin, range)
                ==> in_range(customers, range).contains(#[trigger] customers[i]),
        forall|c: CustomerView|
            !within_range(c.distance_from_dublin, range) ==> !(#[trigger] in_range(
                customers,
                range,
            ).contains(c)),
{
    let pred = |c: CustomerView| within_range(c.distance_from_dublin, range);
    let kept = customers.filter(pred);
    assert forall|i: int| 0 <= i < kept.len() implies within_range(
        (#[trigger] kept[i]).distance_from_dublin,
        range,
    ) by {
        customers.lemma_filter_pred(pred, i);
    }
    assert forall|i: int| 0 <= i < kept.len() implies customers.contains(#[trigger] kept[i]) by {
        assert(kept.contains(kept[i]));
        customers.lemma_filter_contains_rev(pred, kept[i]);
    }
    assert forall|i: int|
        0 <= i < customers.len() && within_range(
            customers[i].distance_from_dublin,
            range,
        ) implies kept.contains(#[trigger] customers[i]) by {
        customers.lemma_filter_contains(pred, i);
    }
    assert forall|c: CustomerView| !within_range(c.distance_from_dublin, range) implies !(
    #[trigger] kept.contains(c)) by {
        if kept.contains(c) {
            let i = choose|i: int| 0 <= i < kept.len() && kept[i] == c;
            customers.lemma_filter_pred(pred, i);
        }
    }
}

/// Where `c` goes in `rest`: behind the `at` customers in front that have a
/// smaller user id.
proof fn lemma_placed_at(c: CustomerView, rest: Seq<CustomerView>, at: int)
    requires
        0 <= at <= rest.len(),
        forall|j: int| 0 <= j < at ==> rest[j].user_id < c.user_id,
        at == rest.len() || c.user_id <= rest[at].user_id,
    ensures
        placed(c, rest) == rest.insert(at, c),
    decreases rest.len(),
{
    if at == 0 {
        assert(seq![c] + rest =~= rest.insert(0, c));
    } else {
        let tail = rest.skip(1);
        assert forall|j: int| 0 <= j < at - 1 implies tail[j].user_id < c.user_id by {
            assert(tail[j] == rest[j + 1]);
        }
        lemma_placed_at(c, tail, at - 1);
        assert(seq![rest[0]] + tail.insert(at - 1, c) =~= rest.insert(at, c));
    }
}

/// Putting a customer into an ascending list leaves it ascending.
proof fn lemma_placed_ascending(c: CustomerView, rest: Seq<CustomerView>)
    requires
        ascending(rest),
    ensures
        ascending(placed(c, rest)),
        placed(c, rest).len() == rest.len() + 1,
        forall|i: int|
            0 <= i < placed(c, rest).len() ==> (#[trigger] placed(c, rest)[i]) == c
                || rest.contains(placed(c, rest)[i]),
    decreases rest.len(),
{
    let out = placed(c, rest);
    if rest.len() == 0 || c.user_id <= rest[0].user_id {
        assert forall|i: int, j: int| 0 <= i <= j < out.len() implies out[i].user_id
            <= out[j].user_id by {
            if i > 0 {
                assert(out[i] == rest[i - 1] && out[j] == rest[j - 1]);
            } else if j > 0 {
                assert(out[j] == rest[j - 1]);
                assert(rest[0].user_id <= rest[j - 1].user_id);
            }
        }
        assert forall|i: int| 0 <= i < out.len() implies (#[trigger] out[i]) == c || rest.contains(
            out[i],
        ) by {
            if i > 0 {
                assert(out[i] == rest[i - 1]);
            }
        }
    } else {
        let tail = rest.skip(1);
        assert forall|i: int, j: int| 0 <= i <= j < tail.len() implies tail[i].user_id
            <= tail[j].user_id by {
            assert(tail[i] == rest[i + 1] && tail[j] == rest[j + 1]);
        }
        lemma_placed_ascending(c, tail);
        let inner = placed(c, tail);
        assert forall|i: int| 0 <= i < out.len() implies (#[trigger] out[i]) == c || rest.contains(
            out[i],
        ) by {
            if i > 0 {
                assert(out[i] == inner[i - 1]);
                if inner[i - 1] != c {
                    let k = choose|k: int| 0 <= k < tail.len() && tail[k] == inner[i - 1];
                    assert(rest[k + 1] == out[i]);
                }
            } else {
                assert(rest[0] == out[0]);
            }
        }
        assert forall|i: int, j: int| 0 <= i <= j < out.len() implies out[i].user_id
            <= out[j].user_id by {
            if i > 0 {
                assert(out[i] == inner[i - 1] && out[j] == inner[j - 1]);
            } else if j > 0 {
                assert(out[j] == inner[j - 1]);
                if inner[j - 1] != c {
                    let k = choose|k: int| 0 <= k < tail.len() && tail[k] == inner[j - 1];
                    assert(rest[k + 1] == out[j]);
                    assert(rest[0].user_id <= rest[k + 1].user_id);
                }
            }
        }
    }
}

/// The sorted list is in ascending order of user id and as long as the list
/// it was made of.
pub proof fn lemma_sorted_is_ascending(customers: Seq<CustomerView>)
    ensures
        ascending(sorted_by_user_id(customers)),
        sorted_by_user_id(customers).len() == customers.len(),
    decreases customers.len(),
{
    if customers.len() > 0 {
        lemma_sorted_is_ascending(customers.skip(1));
        lemma_placed_ascending(customers[0], sorted_by_user_id(customers.skip(1)));
    }
}

proof fn lemma_placed_with_user_id(c: CustomerView, rest: Seq<CustomerView>, user_id: i64)
    ensures
        with_user_id(placed(c, rest), user_id) == with_user_id(seq![c], user_id) + with_user_id(
            rest,
            user_id,
        ),
    decreases rest.len(),
{
    let pred = |x: CustomerView| x.user_id == user_id;
    if rest.len() == 0 || c.user_id <= rest[0].user_id {
        Seq::filter_distributes_over_add(seq![c], rest, pred);
    } else {
        let tail = rest.skip(1);
        lemma_placed_with_user_id(c, tail, user_id);
        Seq::filter_distributes_over_add(seq![rest[0]], placed(c, tail), pred);
        Seq::filter_distributes_over_add(seq![rest[0]], tail, pred);
        assert(seq![rest[0]] + tail =~= rest);
        seq![c].lemma_filter_prepend(c, pred);
        Seq::<CustomerView>::empty().lemma_filter_prepend(c, pred);
        Seq::<CustomerView>::empty().lemma_filter_prepend(rest[0], pred);
        assert(seq![c] + Seq::<CustomerView>::empty() =~= seq![c]);
        assert(seq![rest[0]] + Seq::<CustomerView>::empty() =~= seq![rest[0]]);
        reveal(Seq::filter);
        assert(Seq::<CustomerView>::empty().filter(pred) =~= Seq::<CustomerView>::empty());
        if c.user_id == user_id {
            assert(with_user_id(seq![rest[0]], user_id) =~= Seq::<CustomerView>::empty());
            assert(with_user_id(placed(c, rest), user_id) =~= with_user_id(seq![c], user_id)
                + with_user_id(rest, user_id));
        } else {
            assert(with_user_id(seq![c], user_id) =~= Seq::<CustomerView>::empty());
            assert(with_user_id(placed(c, rest), user_id) =~= with_user_id(seq![c], user_id)
                + with_user_id(rest, user_id));
        }
    }
}

/// Sorting is stable: the customers with one user id stand in the sorted list
/// in the order in which they stood before, and no customer is lost or added.
pub proof fn lemma_sorted_is_stable(customers: Seq<CustomerView>, user_id: i64)
    ensures
        with_user_id(sorted_by_user_id(customers), user_id) == with_user_id(customers, user_id),
    decreases customers.len(),
{
    if customers.len() > 0 {
        let pred = |x: CustomerView| x.user_id == user_id;
        let tail = customers.skip(1);
        lemma_sorted_is_stable(tail, user_id);
        lemma_placed_with_user_id(customers[0], sorted_by_user_id(tail), user_id);
        Seq::filter_distributes_over_add(seq![customers[0]], tail, pred);
        assert(seq![customers[0]] + tail =~= customers);
    }
}

/// Sorting neither loses nor adds a customer: the sorted list holds each
/// customer as often as the list it was made of.
pub proof fn lemma_sorted_is_permutation(customers: Seq<CustomerView>)
    ensures
        sorted_by_user_id(customers).to_multiset() == customers.to_multiset(),
    decreases customers.len(),
{
    if customers.len() > 0 {
        let tail = customers.skip(1);
        lemma_sorted_is_permutation(tail);
        lemma_placed_is_permutation(customers[0], sorted_by_user_id(tail));
        vstd::seq_lib::lemma_multiset_commutative(seq![customers[0]], tail);
        assert(seq![customers[0]] + tail =~= customers);
    }
}

proof fn lemma_placed_is_permutation(c: CustomerView, rest: Seq<CustomerView>)
    ensures
        placed(c, rest).to_multiset() == seq![c].to_multiset().add(rest.to_multiset()),
    decreases rest.len(),
{
    if rest.len() == 0 || c.user_id <= rest[0].user_id {
        vstd::seq_lib::lemma_multiset_commutative(seq![c], rest);
    } else {
        let tail = rest.skip(1);
        lemma_placed_is_permutation(c, tail);
        vstd::seq_lib::lemma_multiset_commutative(seq![rest[0]], placed(c, tail));
        vstd::seq_lib::lemma_multiset_commutative(seq![rest[0]], tail);
        assert(seq![rest[0]] + tail =~= rest);
        assert(placed(c, rest).to_multiset() =~= seq![c].to_multiset().add(rest.to_multiset()));
    }
}

/// A customer stands in the sorted list exactly when it stands in the list
/// that was sorted.
pub proof fn lemma_sorted_has_the_same_customers(customers: Seq<CustomerView>, c: CustomerView)
    ensures
        sorted_by_user_id(customers).contains(c) <==> customers.contains(c),
{
    let pred = |x: CustomerView| x.user_id == c.user_id;
    let sorted = sorted_by_user_id(customers);
    lemma_sorted_is_stable(customers, c.user_id);
    if customers.contains(c) {
        let i = choose|i: int| 0 <= i < customers.len() && customers[i] == c;
        customers.lemma_filter_contains(pred, i);
        sorted.lemma_filter_contains_rev(pred, c);
    }
    if sorted.contains(c) {
        let i = choose|i: int| 0 <= i < sorted.len() && sorted[i] == c;
        sorted.lemma_filter_contains(pred, i);
        customers.lemma_filter_contains_rev(pred, c);
    }
}

/// Of two customers that are kept, the one listed first also stood first
/// among the customers that the range was applied to.
pub proof fn lemma_in_range_keeps_order(
    customers: Seq<CustomerView>,
    range: Option<i64>,
    i: int,
    j: int,
)
    requires
        0 <= i < j < in_range(customers, range).len(),
    ensures
        exists|p: int, q: int|
            0 <= p < q < customers.len() && customers[p] == in_range(customers, range)[i]
                && customers[q] == in_range(customers, range)[j],
    decreases customers.len(),
{
    reveal(Seq::filter);
    let pred = |c: CustomerView| within_range(c.distance_from_dublin, range);
    let kept = customers.filter(pred);
    let front = customers.drop_last();
    let before = front.filter(pred);
    if j < before.len() {
        lemma_in_range_keeps_order(front, range, i, j);
        let (p, q) = choose|p: int, q: int|
            0 <= p < q < front.len() && front[p] == before[i] && front[q] == before[j];
        assert(customers[p] == kept[i] && customers[q] == kept[j]);
    } else {
        assert(before.contains(before[i]));
        front.lemma_filter_contains_rev(pred, before[i]);
        let p = choose|p: int| 0 <= p < front.len() && front[p] == before[i];
        let q = customers.len() - 1;
        assert(customers[p] == kept[i] && customers[q] == kept[j]);
    }
}

/// The invite list holds no customer beyond the range and every customer
/// within it, sorted or not.
pub proof fn lemma_invited_are_those_within_range(
    customers: Seq<CustomerView>,
    range: Option<i64>,
    sort: bool,
)
    ensures
        forall|i: int|
            0 <= i < invited(customers, range, sort).len() ==> within_range(
                (#[trigger] invited(customers, range, sort)[i]).distance_from_dublin,
                range,
            ),
        forall|i: int|
            0 <= i < invited(customers, range, sort).len() ==> customers.contains(
                #[trigger] invited(customers, range, sort)[i],
            ),
        forall|i: int|
            0 <= i < customers.len() && within_range(customers[i].distance_from_dublin, range)
                ==> invited(customers, range, sort).contains(#[trigger] customers[i]),
        forall|c: CustomerView|
            !within_range(c.distance_from_dublin, range) ==> !(#[trigger] invited(
                customers,
                range,
                sort,
            ).contains(c)),
{
    let kept = in_range(customers, range);
    let list = invited(customers, range, sort);
    lemma_in_range_keeps_exactly(customers, range);
    assert forall|c: CustomerView| list.contains(c) <==> kept.contains(c) by {
        if sort {
            lemma_sorted_has_the_same_customers(kept, c);
        }
    }
    assert forall|i: int| 0 <= i < list.len() implies within_range(
        (#[trigger] list[i]).distance_from_dublin,
        range,
    ) && customers.contains(list[i]) by {
        assert(list.contains(list[i]));
        let k = choose|k: int| 0 <= k < kept.len() && kept[k] == list[i];
        assert(within_range(kept[k].distance_from_dublin, range));
        assert(customers.contains(kept[k]));
    }
}

/// With sorting the invite list is in ascending order of user id, and the
/// customers that share a user id keep the order of their lines; without it
/// the list is the customers within range in the order of their lines.
pub proof fn lemma_invited_order(customers: Seq<CustomerView>, range: Option<i64>, user_id: i64)
    ensures
        ascending(invited(customers, range, true)),
        with_user_id(invited(customers, range, true), user_id) == with_user_id(
            in_range(customers, range),
            user_id,
        ),
        invited(customers, range, true).to_multiset() == invited(
            customers,
            range,
            false,
        ).to_multiset(),
        invited(customers, range, false) == in_range(customers, range),
{
    lemma_sorted_is_ascending(in_range(customers, range));
    lemma_sorted_is_stable(in_range(customers, range), user_id);
    lemma_sorted_is_permutation(in_range(customers, range));
}

/// One line that is no record leaves no invite list at all, whatever the
/// other lines, the distances and the settings are.
pub proof fn lemma_one_bad_line_fails_the_list(
    text: Seq<char>,
    distances: Seq<i64>,
    range: Option<i64>,
    sort: bool,
    i: int,
)
    requires
        0 <= i < lines_of(text).len(),
        record_of(lines_of(text)[i]) is Err,
    ensures
        invite_list_of(text, distances, range, sort) is Err,
{
    lemma_one_bad_line_fails_all(text, i);
}

/// The list is decided by the data, the distances and the settings alone:
/// whatever two calls of [`InviteList::build`] with the same of each
/// returned, it is the same.
pub proof fn lemma_same_input_same_list(
    a: InviteList,
    b: InviteList,
    distances: Seq<i64>,
    first: Result<Vec<Customer>, InviteError>,
    second: Result<Vec<Customer>, InviteError>,
)
    requires
        a.data() == b.data(),
        a.range() == b.range(),
        a.sorted() == b.sorted(),
        customers_outcome(first) == a.list(distances),
        customers_outcome(second) == b.list(distances),
    ensures
        customers_outcome(first) == customers_outcome(second),
        first is Ok <==> second is Ok,
        first matches Ok(x) ==> second matches Ok(y) && x@.len() == y@.len() && forall|i: int|
            0 <= i < x@.len() ==> (#[trigger] x@[i])@ == y@[i]@,
{
    if first is Ok {
        let x = first->Ok_0;
        let y = second->Ok_0;
        assert(customer_views(x@) == customer_views(y@));
        assert(customer_views(x@).len() == x@.len());
        assert(customer_views(y@).len() == y@.len());
        assert forall|i: int| 0 <= i < x@.len() implies (#[trigger] x@[i])@ == y@[i]@ by {
            assert(customer_views(x@)[i] == x@[i]@);
            assert(customer_views(y@)[i] == y@[i]@);
        }
    }
}

/// The customers of `customers` that are within `range`, in their order.
pub fn retain_within(customers: &Vec<Customer>, range: Option<i64>) -> (kept: Vec<Customer>)
    ensures
        customer_views(kept@) == in_range(customer_views(customers@), range),
{
    let mut kept: Vec<Customer> = Vec::new();
    let mut at: usize = 0;
    let ghost pred = |c: CustomerView| within_range(c.distance_from_dublin, range);
    proof {
        reveal(Seq::filter);
        assert(customer_views(customers@).take(0) =~= Seq::empty());
        assert(customer_views(kept@) =~= Seq::empty());
    }
    while at < customers.len()
        invariant
            at <= customers.len(),
            pred == |c: CustomerView| within_range(c.distance_from_dublin, range),
            customer_views(kept@) == customer_views(customers@).take(at as int).filter(pred),
        decreases customers.len() - at,
    {
        let ghost before = customer_views(kept@);
        let within = match range {
            None => true,
            Some(limit) => customers[at].distance_from_dublin <= limit,
        };
        proof {
            let upto = customer_views(customers@).take(at + 1);
            assert(upto =~= customer_views(customers@).take(at as int).push(
                customers@[at as int]@,
            ));
            customer_views(customers@).take(at as int).lemma_filter_push(
                customers@[at as int]@,
                pred,
            );
        }
        if within {
            kept.push(customers[at].duplicate());
            proof {
                assert(customer_views(kept@) =~= before.push(customers@[at as int]@));
            }
        }
        at = at + 1;
    }
    proof {
        assert(customer_views(customers@).take(at as int) =~= customer_views(customers@));
    }
    kept
}

/// Sorts `customers` by ascending user id, keeping the order of those that
/// share one.
pub fn sort_by_user_id(customers: Vec<Customer>) -> (sorted: Vec<Customer>)
    ensures
        customer_views(sorted@) == sorted_by_user_id(customer_views(customers@)),
{
    let ghost all = customer_views(customers@);
    let mut rest = customers;
    let mut sorted: Vec<Customer> = Vec::new();
    proof {
        assert(all.skip(all.len() as int) =~= Seq::empty());
        assert(customer_views(sorted@) =~= Seq::empty());
    }
    while rest.len() > 0
        invariant
            rest@.len() <= all.len(),
            customer_views(rest@) == all.take(rest@.len() as int),
            customer_views(sorted@) == sorted_by_user_id(all.skip(rest@.len() as int)),
        decreases rest.len(),
    {
        let ghost remaining = rest@.len();
        let ghost earlier = customer_views(sorted@);
        let ghost front = customer_views(rest@);
        let c = rest.pop().unwrap();
        proof {
            assert(c@ == front[remaining - 1]);
            assert(c@ == all[remaining - 1]);
            assert(all.skip(remaining - 1)[0] == c@);
            assert(all.skip(remaining - 1).skip(1) =~= all.skip(remaining as int));
            assert(customer_views(rest@) =~= all.take(rest@.len() as int));
        }
        let mut at: usize = 0;
        while at < sorted.len() && sorted[at].user_id < c.user_id
            invariant
                at <= sorted.len(),
                forall|j: int| 0 <= j < at ==> (#[trigger] sorted@[j]).user_id < c.user_id,
            decreases sorted.len() - at,
        {
            at = at + 1;
        }
        proof {
            assert forall|j: int| 0 <= j < at implies earlier[j].user_id < c@.user_id by {
                assert(earlier[j] == sorted@[j]@);
            }
            if at < sorted.len() {
                assert(earlier[at as int] == sorted@[at as int]@);
            }
            lemma_placed_at(c@, earlier, at as int);
        }
        sorted.insert(at, c);
        proof {
            assert(customer_views(sorted@) =~= earlier.insert(at as int, c@));
        }
    }
    proof {
        assert(all.skip(0) =~= all);
    }
    sorted
}

/// Builds the invite list. The data is the text of the records, one JSON
/// object to a line; without a range every customer is invited; the list is
/// in the order of the lines unless sorting by user id is asked for.
pub struct InviteList {
    data: String,
    range: Option<i64>,
    sort_by_user_id: bool,
}

impl InviteList {
    /// The text of the records.
    pub closed spec fn data(&self) -> Seq<char> {
        self.data@
    }

    /// The greatest distance at which a customer is invited, `None` where
    /// there is no limit.
    pub closed spec fn range(&self) -> Option<i64> {
        self.range
    }

    /// Whether the list comes out in the order of the user ids.
    pub closed spec fn sorted(&self) -> bool {
        self.sort_by_user_id
    }

    /// The list that [`InviteList::build`] makes with these distances.
    pub open spec fn list(&self, distances: Seq<i64>) -> Result<Seq<CustomerView>, InviteError> {
        invite_list_of(self.data(), distances, self.range(), self.sorted())
    }

    /// A builder with no data, no limit on the distance, and no sorting.
    pub fn new() -> (r: InviteList)
        ensures
            r.data() == Seq::<char>::empty(),
            r.range() == None::<i64>,
            !r.sorted(),
    {
        let data = String::new();
        InviteList { data, range: None, sort_by_user_id: false }
    }

    /// Sets the text of the records.
    pub fn with_data(self, data: &str) -> (r: InviteList)
        ensures
            r.data() == data@,
            r.range() == self.range(),
            r.sorted() == self.sorted(),
    {
        let data = data.to_owned();
        InviteList { data, range: self.range, sort_by_user_id: self.sort_by_user_id }
    }

    /// Invites only the customers at most `range` kilometres away.
    pub fn with_range(self, range: i64) -> (r: InviteList)
        ensures
            r.data() == self.data(),
            r.range() == Some(range),
            r.sorted() == self.sorted(),
    {
        InviteList { data: self.data, range: Some(range), sort_by_user_id: self.sort_by_user_id }
    }

    /// Asks for the list in ascending order of user id.
    pub fn sorted_by_user_id(self) -> (r: InviteList)
        ensures
            r.data() == self.data(),
            r.range() == self.range(),
            r.sorted(),
    {
        InviteList { data: self.data, range: self.range, sort_by_user_id: true }
    }

    /// Decodes the data, gives the customer of line `i` the distance
    /// `distances[i]`, keeps those within range and orders them as asked.
    /// Fails, with no list at all, where a line is no record or the number of
    /// distances is not the number of lines.
    pub fn build(self, distances: &Vec<i64>) -> (r: Result<Vec<Customer>, InviteError>)
        ensures
            customers_outcome(r) == self.list(distances@),
    {
        match Customer::list_from_json(self.data.as_str(), distances) {
            Err(e) => Err(e),
            Ok(customers) => {
                let kept = retain_within(&customers, self.range);
                if self.sort_by_user_id {
                    Ok(sort_by_user_id(kept))
                } else {
                    Ok(kept)
                }
            },
        }
    }
}

} // verus!
