//! The order of chunk names.
//!
//! Chunk names begin with the chunk's index, so the chunks are put back in the
//! order in which a comparison that reads runs of digits as numbers puts their
//! names. The comparison is that of the `alphanumeric-sort` crate; sorting by it is
//! done and verified here.

use vstd::prelude::*;

verus! {

/// How one name stands to another.
#[derive(Clone, Copy, Debug, PartialEq, Eq, Structural)]
pub enum NameOrder {
    /// The first name comes first.
    Before,
    /// Neither comes first.
    Same,
    /// The second name comes first.
    After,
}

/// How `alphanumeric_sort::compare_str` orders `first` and `second`: runs of ASCII
/// digits are compared by their value, other characters one by one.
pub uninterp spec fn alphanumeric_order(first: Seq<char>, second: Seq<char>) -> NameOrder;

/// Calls `alphanumeric_sort::compare_str` and hands its answer on: `Less` as
/// `Before`, `Equal` as `Same`, `Greater` as `After`.
///
/// Believed of it: the answer is a function of the two strings alone.
#[verifier::external_body]
fn compare_names(first: &str, second: &str) -> (res: NameOrder)
    ensures
        res == alphanumeric_order(first@, second@),
{
    match alphanumeric_sort::compare_str(first, second) {
        std::cmp::Ordering::Less => NameOrder::Before,
        std::cmp::Ordering::Equal => NameOrder::Same,
        std::cmp::Ordering::Greater => NameOrder::After,
    }
}

/// Whether `first` comes strictly before `second`.
pub open spec fn precedes(first: Seq<char>, second: Seq<char>) -> bool {
    alphanumeric_order(first, second) == NameOrder::Before
}

/// Where `name` goes into `sorted`: in front of the first element that it
/// precedes, or at the end where it precedes none.
pub open spec fn insertion_point(sorted: Seq<Seq<char>>, name: Seq<char>) -> int
    decreases sorted.len(),
{
    if sorted.len() == 0 {
        0
    } else if precedes(name, sorted.first()) {
        0
    } else {
        1 + insertion_point(sorted.drop_first(), name)
    }
}

/// `names` in order: each name in turn is put in front of the first of the
/// names already placed that it precedes. Names of which neither precedes the
/// other keep the order in which they were given.
pub open spec fn ordered(names: Seq<Seq<char>>) -> Seq<Seq<char>>
    decreases names.len(),
{
    if names.len() == 0 {
        Seq::empty()
    } else {
        let placed = ordered(names.drop_last());
        placed.insert(insertion_point(placed, names.last()), names.last())
    }
}

/// The views of a list of strings.
pub open spec fn name_views(names: Seq<String>) -> Seq<Seq<char>> {
    names.map_values(|name: String| name@)
}

/// What an insertion point is: an index into the list or its end, the name
/// precedes nothing in front of it, and it precedes what stands at it.
pub proof fn lemma_insertion_point(sorted: Seq<Seq<char>>, name: Seq<char>)
    ensures
        0 <= insertion_point(sorted, name) <= sorted.len(),
        forall|k: int|
            0 <= k < insertion_point(sorted, name) ==> !precedes(name, #[trigger] sorted[k]),
        insertion_point(sorted, name) < sorted.len() ==> precedes(
            name,
            sorted[insertion_point(sorted, name)],
        ),
    decreases sorted.len(),
{
    if sorted.len() > 0 && !precedes(name, sorted.first()) {
        let rest = sorted.drop_first();
        lemma_insertion_point(rest, name);
        assert forall|k: int| 0 <= k < insertion_point(sorted, name) implies !precedes(
            name,
            #[trigger] sorted[k],
        ) by {
            if k > 0 {
                assert(sorted[k] == rest[k - 1]);
            }
        }
    }
}

fn find_insertion_point(sorted: &Vec<String>, name: &str) -> (point: usize)
    ensures
        point == insertion_point(name_views(sorted@), name@),
{
    let ghost views = name_views(sorted@);
    let mut point: usize = 0;
    proof {
        assert(views.skip(0) =~= views);
    }
    while point < sorted.len()
        invariant
            views == name_views(sorted@),
            point <= sorted.len(),
            insertion_point(views, name@) == point + insertion_point(
                views.skip(point as int),
                name@,
            ),
        decreases sorted.len() - point,
    {
        proof {
            let rest = views.skip(point as int);
            assert(rest.first() == sorted@[point as int]@);
            assert(rest.drop_first() =~= views.skip(point + 1));
        }
        match compare_names(name, sorted[point].as_str()) {
            NameOrder::Before => {
                return point;
            },
            _ => {},
        }
        point = point + 1;
    }
    proof {
        assert(views.skip(point as int).len() == 0);
    }
    point
}

/// Sorts names by the alphanumeric order of `alphanumeric_sort`, so that
/// `"2_d"` comes before `"10_c"`. The sort is stable. Nothing is taken for
/// granted of the comparison, so every name is compared with the names placed
/// before it: the comparisons grow with the square of the number of names.
pub fn sort_names(names: &Vec<String>) -> (sorted: Vec<String>)
    ensures
        name_views(sorted@) == ordered(name_views(names@)),
        name_views(sorted@).to_multiset() == name_views(names@).to_multiset(),
        sorted@.len() == names@.len(),
{
    let ghost views = name_views(names@);
    let mut sorted: Vec<String> = Vec::new();
    let mut next: usize = 0;
    proof {
        assert(views.take(0) =~= Seq::<Seq<char>>::empty());
        assert(name_views(sorted@) =~= Seq::<Seq<char>>::empty());
    }
    while next < names.len()
        invariant
            views == name_views(names@),
            next <= names.len(),
            name_views(sorted@) == ordered(views.take(next as int)),
        decreases names.len() - next,
    {
        let name: String = names[next].clone();
        let point: usize = find_insertion_point(&sorted, name.as_str());
        proof {
            let upto = views.take(next + 1);
            assert(upto.drop_last() =~= views.take(next as int));
            assert(upto.last() == name@);
            lemma_insertion_point(name_views(sorted@), name@);
        }
        let ghost before = name_views(sorted@);
        sorted.insert(point, name);
        proof {
            assert(name_views(sorted@) =~= before.insert(point as int, name@));
        }
        next = next + 1;
    }
    proof {
        assert(views.take(next as int) =~= views);
        lemma_ordered_permutes(views);
    }
    sorted
}

/// Putting one more element into a list adds that element to what the list
/// holds, and nothing else.
pub proof fn lemma_insert_holds(list: Seq<Seq<char>>, point: int, name: Seq<char>)
    requires
        0 <= point <= list.len(),
    ensures
        list.insert(point, name).to_multiset() == list.to_multiset().insert(name),
        list.insert(point, name).len() == list.len() + 1,
{
    broadcast use vstd::seq_lib::group_to_multiset_ensures;

    let longer = list.insert(point, name);
    assert(longer[point] == name);
    assert(longer.remove(point) =~= list);
    assert(longer.to_multiset().remove(name) =~= list.to_multiset());
    assert(longer.contains(name));
    assert(longer.to_multiset() =~= list.to_multiset().insert(name));
}

/// Ordering moves names and neither drops nor repeats one: the ordered list
/// holds every name as often as the given list does.
pub proof fn lemma_ordered_permutes(names: Seq<Seq<char>>)
    ensures
        ordered(names).to_multiset() == names.to_multiset(),
        ordered(names).len() == names.len(),
    decreases names.len(),
{
    broadcast use vstd::seq_lib::group_to_multiset_ensures;

    if names.len() == 0 {
        assert(ordered(names) =~= names);
    } else {
        let placed = ordered(names.drop_last());
        lemma_ordered_permutes(names.drop_last());
        lemma_insertion_point(placed, names.last());
        lemma_insert_holds(placed, insertion_point(placed, names.last()), names.last());
        assert(names =~= names.drop_last().push(names.last()));
    }
}

/// Whether the comparison behaves as an order among `names`: of two names at most
/// one precedes the other, and where `third` does not precede `second` nor
/// `second` precede `first`, `third` does not precede `first`.
pub open spec fn is_order_among(names: Seq<Seq<char>>) -> bool {
    &&& forall|first: Seq<char>, second: Seq<char>|
        names.contains(first) && names.contains(second) && #[trigger] precedes(first, second)
            ==> !precedes(second, first)
    &&& forall|first: Seq<char>, second: Seq<char>, third: Seq<char>|
        names.contains(first) && names.contains(second) && names.contains(third) && !(
        #[trigger] precedes(second, first)) && !(#[trigger] precedes(third, second))
            ==> !precedes(third, first)
}

/// Whether no name in `list` precedes one that stands in front of it.
pub open spec fn in_order(list: Seq<Seq<char>>) -> bool {
    forall|i: int, j: int| 0 <= i < j < list.len() ==> !precedes(#[trigger] list[j], #[trigger] list[i])
}

/// Where the comparison behaves as an order among the names, the ordered list
/// is sorted: no name precedes one that stands in front of it.
pub proof fn lemma_ordered_is_sorted(names: Seq<Seq<char>>)
    ensures
        is_order_among(names) ==> in_order(ordered(names)),
    decreases names.len(),
{
    broadcast use vstd::seq_lib::group_to_multiset_ensures;

    if is_order_among(names) && names.len() > 0 {
        let front = names.drop_last();
        let name = names.last();
        let placed = ordered(front);
        let point = insertion_point(placed, name);
        let longer = placed.insert(point, name);
        assert(names.contains(name));
        assert forall|other: Seq<char>| front.contains(other) implies names.contains(other) by {
            let k = choose|k: int| 0 <= k < front.len() && front[k] == other;
            assert(names[k] == other);
        }
        assert(is_order_among(front));
        lemma_ordered_is_sorted(front);
        lemma_ordered_permutes(front);
        lemma_insertion_point(placed, name);
        assert forall|k: int| 0 <= k < placed.len() implies names.contains(
            #[trigger] placed[k],
        ) by {
            assert(placed.contains(placed[k]));
            assert(front.to_multiset().count(placed[k]) > 0);
            assert(front.contains(placed[k]));
        }
        assert forall|i: int, j: int| 0 <= i < j < longer.len() implies !precedes(
            #[trigger] longer[j],
            #[trigger] longer[i],
        ) by {
            if i == point {
                let at = placed[point];
                let far = placed[j - 1];
                assert(longer[j] == far);
                assert(precedes(name, at));
                assert(!precedes(at, name));
                if j - 1 > point {
                    assert(!precedes(far, at));
                }
                assert(!precedes(far, name));
            } else if j == point {
                assert(longer[i] == placed[i]);
            } else {
                let a = if i < point { i } else { i - 1 };
                let b = if j < point { j } else { j - 1 };
                assert(longer[i] == placed[a]);
                assert(longer[j] == placed[b]);
            }
        }
    }
}

/// A list that is in order already is left as it is.
pub proof fn lemma_ordered_keeps_order(names: Seq<Seq<char>>)
    requires
        in_order(names),
    ensures
        ordered(names) == names,
    decreases names.len(),
{
    if names.len() == 0 {
        assert(ordered(names) =~= names);
    } else {
        let front = names.drop_last();
        let name = names.last();
        assert forall|i: int, j: int| 0 <= i < j < front.len() implies !precedes(
            #[trigger] front[j],
            #[trigger] front[i],
        ) by {
            assert(front[i] == names[i] && front[j] == names[j]);
        }
        lemma_ordered_keeps_order(front);
        lemma_insertion_point(front, name);
        let point = insertion_point(front, name);
        if point < front.len() {
            assert(front[point] == names[point]);
            assert(name == names[names.len() - 1]);
            assert(!precedes(names[names.len() - 1], names[point]));
        }
        assert(front.insert(point, name) =~= names);
    }
}

/// Whether each name precedes every later one and none precedes an earlier
/// one. Among such names the comparison is an order, and the list is sorted by
/// it.
pub open spec fn strictly_ordered(names: Seq<Seq<char>>) -> bool {
    forall|i: int, j: int|
        0 <= i < j < names.len() ==> precedes(#[trigger] names[i], #[trigger] names[j])
            && !precedes(names[j], names[i])
}

/// Whether each name precedes every later one and none precedes an earlier
/// one. Every two names are compared, both ways.
pub fn in_strict_order(names: &Vec<String>) -> (strict: bool)
    ensures
        strict == strictly_ordered(name_views(names@)),
{
    let ghost views = name_views(names@);
    let mut later: usize = 0;
    while later < names.len()
        invariant
            views == name_views(names@),
            later <= names@.len(),
            forall|i: int, j: int|
                0 <= i < j < later ==> precedes(#[trigger] views[i], #[trigger] views[j])
                    && !precedes(views[j], views[i]),
        decreases names@.len() - later,
    {
        let mut earlier: usize = 0;
        while earlier < later
            invariant
                views == name_views(names@),
                later < names@.len(),
                earlier <= later,
                forall|i: int|
                    0 <= i < earlier ==> precedes(#[trigger] views[i], views[later as int])
                        && !precedes(views[later as int], views[i]),
            decreases later - earlier,
        {
            let forth = compare_names(names[earlier].as_str(), names[later].as_str());
            let back = compare_names(names[later].as_str(), names[earlier].as_str());
            let rises = match forth {
                NameOrder::Before => match back {
                    NameOrder::Before => false,
                    _ => true,
                },
                _ => false,
            };
            if !rises {
                proof {
                    assert(views[earlier as int] == names@[earlier as int]@);
                    assert(views[later as int] == names@[later as int]@);
                    assert(!(precedes(views[earlier as int], views[later as int]) && !precedes(
                        views[later as int],
                        views[earlier as int],
                    )));
                }
                return false;
            }
            earlier = earlier + 1;
        }
        later = later + 1;
    }
    true
}

/// Whether `list` holds names of `names` only, in the order in which they stand
/// in `names`.
pub open spec fn rises_in(names: Seq<Seq<char>>, list: Seq<Seq<char>>) -> bool {
    &&& forall|k: int| 0 <= k < list.len() ==> names.contains(#[trigger] list[k])
    &&& forall|a: int, b: int|
        0 <= a < b < list.len() ==> names.index_of(#[trigger] list[a]) < names.index_of(
            #[trigger] list[b],
        )
}

/// In a strictly ordered list no name stands twice, and of two of its names the
/// one that stands first is the one that precedes.
pub proof fn lemma_strict_order(names: Seq<Seq<char>>)
    requires
        strictly_ordered(names),
    ensures
        names.no_duplicates(),
        forall|k: int| 0 <= k < names.len() ==> names.index_of(#[trigger] names[k]) == k,
        forall|first: Seq<char>, second: Seq<char>|
            names.contains(first) && names.contains(second) && first != second ==> (
            #[trigger] precedes(first, second) <==> names.index_of(first) < names.index_of(second)),
{
    assert forall|i: int, j: int| 0 <= i < names.len() && 0 <= j < names.len() && i
        != j implies names[i] != names[j] by {
        if i < j {
            assert(precedes(names[i], names[j]) && !precedes(names[j], names[i]));
        } else {
            assert(precedes(names[j], names[i]) && !precedes(names[i], names[j]));
        }
    }
    assert forall|k: int| 0 <= k < names.len() implies names.index_of(#[trigger] names[k])
        == k by {
        let at = names.index_of(names[k]);
        assert(0 <= at < names.len() && names[at] == names[k]);
    }
    assert forall|first: Seq<char>, second: Seq<char>|
        names.contains(first) && names.contains(second) && first != second implies (
    #[trigger] precedes(first, second) <==> names.index_of(first) < names.index_of(second)) by {
        let i = names.index_of(first);
        let j = names.index_of(second);
        assert(0 <= i < names.len() && names[i] == first);
        assert(0 <= j < names.len() && names[j] == second);
        if i < j {
            assert(precedes(names[i], names[j]) && !precedes(names[j], names[i]));
        } else {
            assert(precedes(names[j], names[i]) && !precedes(names[i], names[j]));
        }
    }
}

/// Putting one more of the names into a list that rises leaves a list that
/// rises.
proof fn lemma_insert_rises(names: Seq<Seq<char>>, list: Seq<Seq<char>>, name: Seq<char>)
    requires
        strictly_ordered(names),
        rises_in(names, list),
        names.contains(name),
        !list.contains(name),
    ensures
        rises_in(names, list.insert(insertion_point(list, name), name)),
{
    let point = insertion_point(list, name);
    let longer = list.insert(point, name);
    lemma_strict_order(names);
    lemma_insertion_point(list, name);
    assert forall|k: int| 0 <= k < longer.len() implies names.contains(#[trigger] longer[k]) by {
        if k < point {
            assert(longer[k] == list[k]);
        } else if k > point {
            assert(longer[k] == list[k - 1]);
        }
    }
    assert forall|k: int| 0 <= k < list.len() implies (k < point <==> names.index_of(
        #[trigger] list[k],
    ) < names.index_of(name)) by {
        assert(list.contains(list[k]));
        assert(list[k] != name);
        if k < point {
            assert(!precedes(name, list[k]));
        } else {
            assert(precedes(name, list[point]));
            if k > point {
                assert(names.index_of(list[point]) < names.index_of(list[k]));
            }
        }
    }
    assert forall|a: int, b: int| 0 <= a < b < longer.len() implies names.index_of(
        #[trigger] longer[a],
    ) < names.index_of(#[trigger] longer[b]) by {
        let from = if a < point {
            a
        } else {
            a - 1
        };
        let to = if b < point {
            b
        } else {
            b - 1
        };
        if a != point {
            assert(longer[a] == list[from]);
        }
        if b != point {
            assert(longer[b] == list[to]);
        }
    }
}

/// Among strictly ordered names, ordering any of them, each once, gives them in
/// the order in which they stand among the names.
proof fn lemma_ordered_rises(names: Seq<Seq<char>>, list: Seq<Seq<char>>)
    requires
        strictly_ordered(names),
        list.no_duplicates(),
        forall|k: int| 0 <= k < list.len() ==> names.contains(#[trigger] list[k]),
    ensures
        rises_in(names, ordered(list)),
    decreases list.len(),
{
    if list.len() > 0 {
        let front = list.drop_last();
        let name = list.last();
        let placed = ordered(front);
        assert forall|k: int| 0 <= k < front.len() implies names.contains(#[trigger] front[k]) by {
            assert(front[k] == list[k]);
        }
        lemma_ordered_rises(names, front);
        lemma_ordered_permutes(front);
        assert(names.contains(list[list.len() - 1]));
        if placed.contains(name) {
            placed.to_multiset_ensures();
            front.to_multiset_ensures();
            assert(placed.to_multiset().count(name) > 0);
            assert(front.to_multiset().count(name) > 0);
            assert(front.contains(name));
            let k = choose|k: int| 0 <= k < front.len() && front[k] == name;
            assert(list[k] == list[list.len() - 1]);
        }
        lemma_insert_rises(names, placed, name);
    }
}

/// A rising list stands no lower than its own positions.
proof fn lemma_rising_from_below(names: Seq<Seq<char>>, list: Seq<Seq<char>>, at: int)
    requires
        names.no_duplicates(),
        rises_in(names, list),
        0 <= at < list.len(),
    ensures
        at <= names.index_of(list[at]) < names.len(),
    decreases at,
{
    let rank = names.index_of(list[at]);
    assert(names.contains(list[at]));
    assert(0 <= rank < names.len() && names[rank] == list[at]);
    if at > 0 {
        lemma_rising_from_below(names, list, at - 1);
    }
}

/// A rising list that is as long as the names stands no higher than its own
/// positions.
proof fn lemma_rising_from_above(names: Seq<Seq<char>>, list: Seq<Seq<char>>, at: int)
    requires
        names.no_duplicates(),
        rises_in(names, list),
        list.len() == names.len(),
        0 <= at < list.len(),
    ensures
        names.index_of(list[at]) <= at,
    decreases list.len() - at,
{
    lemma_rising_from_below(names, list, at);
    if at + 1 < list.len() {
        lemma_rising_from_above(names, list, at + 1);
    }
}

/// The order of names undoes any shuffling: where each of the names precedes
/// every later one and none precedes an earlier one, ordering the same names,
/// given in whatever order, gives them back in theirs.
pub proof fn lemma_strict_order_sorts(names: Seq<Seq<char>>, shuffled: Seq<Seq<char>>)
    requires
        strictly_ordered(names),
        shuffled.no_duplicates(),
        shuffled.len() == names.len(),
        forall|k: int| 0 <= k < shuffled.len() ==> names.contains(#[trigger] shuffled[k]),
    ensures
        ordered(shuffled) == names,
{
    let sorted = ordered(shuffled);
    lemma_strict_order(names);
    lemma_ordered_rises(names, shuffled);
    lemma_ordered_permutes(shuffled);
    assert forall|k: int| 0 <= k < sorted.len() implies sorted[k] == names[k] by {
        lemma_rising_from_below(names, sorted, k);
        lemma_rising_from_above(names, sorted, k);
        let rank = names.index_of(sorted[k]);
        assert(names.contains(sorted[k]));
        assert(0 <= rank < names.len() && names[rank] == sorted[k]);
    }
    assert(sorted =~= names);
}

} // verus!
