//! The edit distance between two sequences, computed over a matrix of the
//! distances between their prefixes.

use vstd::prelude::*;
use vstd::std_specs::cmp::PartialEqSpec;
use crate::error::UtilsResult;
use crate::grid::{Grid, lemma_put};
use crate::matrix::Matrix;

verus! {

/// The least of three numbers.
pub open spec fn least_of(x: int, y: int, z: int) -> int {
    if x <= y && x <= z {
        x
    } else if y <= z {
        y
    } else {
        z
    }
}

/// What it costs to set one element against another: nothing where the two
/// compare equal, one substitution where they do not.
pub open spec fn substitution_cost(same: bool) -> int {
    if same {
        0
    } else {
        1
    }
}

/// The edit distance between the first `j` elements of one sequence and the
/// first `i` elements of another, where `same(x, y)` says whether element
/// `x` of the first and element `y` of the second compare equal. It is the
/// least number of insertions, deletions and substitutions of single
/// elements that turn the one prefix into the other: to or from an empty
/// prefix it is the length of the other; otherwise the last elements are set
/// against each other, or the last one of the first prefix is deleted, or
/// the last one of the second is inserted, whichever is least in all.
pub open spec fn distance_by(same: spec_fn(int, int) -> bool, j: nat, i: nat) -> int
    decreases j + i,
{
    if j == 0 {
        i as int
    } else if i == 0 {
        j as int
    } else {
        least_of(
            distance_by(same, (j - 1) as nat, (i - 1) as nat) + substitution_cost(
                same(j - 1, i - 1),
            ),
            distance_by(same, (j - 1) as nat, i) + 1,
            distance_by(same, j, (i - 1) as nat) + 1,
        )
    }
}

/// Whether element `x` of `a` and element `y` of `b` are equal by the
/// specification of `T`'s comparison, which has the element of `b` on its
/// left.
pub open spec fn equal_by_spec<T: PartialEq>(a: Seq<T>, b: Seq<T>) -> spec_fn(int, int) -> bool {
    |x: int, y: int| b[y].eq_spec(&a[x])
}

/// The edit distance between `a` and `b` by the specification of `T`'s
/// comparison.
pub open spec fn edit_distance<T: PartialEq>(a: Seq<T>, b: Seq<T>) -> int {
    distance_by(equal_by_spec(a, b), a.len(), b.len())
}

/// `same` holds, for each element of `a` and each element of `b`, a result
/// that `T`'s comparison of the two may give.
pub open spec fn compares_as<T: PartialEq>(
    a: Seq<T>,
    b: Seq<T>,
    same: spec_fn(int, int) -> bool,
) -> bool {
    forall|x: int, y: int|
        0 <= x < a.len() && 0 <= y < b.len() ==> call_ensures(
            T::eq,
            (&b[y], &a[x]),
            #[trigger] same(x, y),
        )
}

/// `same` with the two sequences exchanged.
pub open spec fn mirrored(same: spec_fn(int, int) -> bool) -> spec_fn(int, int) -> bool {
    |x: int, y: int| same(y, x)
}

/// The distance from nothing to `n` elements, and from `n` elements to
/// nothing, is `n`.
pub proof fn lemma_distance_to_nothing(same: spec_fn(int, int) -> bool, n: nat)
    ensures
        distance_by(same, 0, n) == n,
        distance_by(same, n, 0) == n,
{
}

/// The distance from the empty sequence to `x`, and from `x` to it, is the
/// length of `x`.
pub proof fn lemma_distance_to_empty<T: PartialEq>(x: Seq<T>)
    ensures
        edit_distance(Seq::<T>::empty(), x) == x.len(),
        edit_distance(x, Seq::<T>::empty()) == x.len(),
{
}

/// The distance lies between the difference of the two lengths and the
/// greater of them.
pub proof fn lemma_distance_bounds(same: spec_fn(int, int) -> bool, j: nat, i: nat)
    ensures
        distance_by(same, j, i) >= j - i,
        distance_by(same, j, i) >= i - j,
        distance_by(same, j, i) >= 0,
        distance_by(same, j, i) <= j || distance_by(same, j, i) <= i,
    decreases j + i,
{
    if j != 0 && i != 0 {
        lemma_distance_bounds(same, (j - 1) as nat, (i - 1) as nat);
        lemma_distance_bounds(same, (j - 1) as nat, i);
        lemma_distance_bounds(same, j, (i - 1) as nat);
    }
}

/// The distance between two prefixes depends on the pairs of their own
/// elements only.
pub proof fn lemma_distance_depends_on_pairs(
    f: spec_fn(int, int) -> bool,
    g: spec_fn(int, int) -> bool,
    j: nat,
    i: nat,
)
    requires
        forall|x: int, y: int| 0 <= x < j && 0 <= y < i ==> #[trigger] f(x, y) == g(x, y),
    ensures
        distance_by(f, j, i) == distance_by(g, j, i),
    decreases j + i,
{
    if j != 0 && i != 0 {
        lemma_distance_depends_on_pairs(f, g, (j - 1) as nat, (i - 1) as nat);
        lemma_distance_depends_on_pairs(f, g, (j - 1) as nat, i);
        lemma_distance_depends_on_pairs(f, g, j, (i - 1) as nat);
        assert(f(j - 1, i - 1) == g(j - 1, i - 1));
    }
}

/// The distance is the same in both directions: from the first `j` elements
/// of the one sequence to the first `i` of the other as far as from those
/// back.
pub proof fn lemma_distance_mirrored(same: spec_fn(int, int) -> bool, j: nat, i: nat)
    ensures
        distance_by(same, j, i) == distance_by(mirrored(same), i, j),
    decreases j + i,
{
    if j != 0 && i != 0 {
        lemma_distance_mirrored(same, (j - 1) as nat, (i - 1) as nat);
        lemma_distance_mirrored(same, (j - 1) as nat, i);
        lemma_distance_mirrored(same, j, (i - 1) as nat);
        assert(mirrored(same)(i - 1, j - 1) == same(j - 1, i - 1));
    }
}

/// Where the comparison of elements is symmetric, the distance from `a` to
/// `b` is the distance from `b` to `a`.
pub proof fn lemma_distance_symmetric<T: PartialEq>(a: Seq<T>, b: Seq<T>)
    requires
        forall|x: T, y: T| x.eq_spec(&y) == y.eq_spec(&x),
    ensures
        edit_distance(a, b) == edit_distance(b, a),
{
    let forth = equal_by_spec(a, b);
    let back = equal_by_spec(b, a);
    lemma_distance_mirrored(forth, a.len(), b.len());
    assert forall|x: int, y: int| 0 <= x < b.len() && 0 <= y < a.len() implies #[trigger] mirrored(
        forth,
    )(x, y) == back(x, y) by {
        assert(b[x].eq_spec(&a[y]) == a[y].eq_spec(&b[x]));
    }
    lemma_distance_depends_on_pairs(mirrored(forth), back, b.len(), a.len());
}

/// One step of an alignment of two sequences, which is read from their ends
/// towards their starts.
pub enum Step {
    /// The last elements of both are set against each other, at the cost of
    /// a substitution where they differ.
    Pair,
    /// The last element of the first sequence is deleted.
    Delete,
    /// The last element of the second sequence is inserted.
    Insert,
}

/// What the alignment `steps` of the first `j` elements of one sequence with
/// the first `i` of another costs: one for each deletion and insertion, and
/// the cost of the substitution for each pair. It is `None` where `steps` is
/// no alignment of the two, because a step finds no element to act on or
/// elements are left over at the end.
pub open spec fn alignment_cost(
    steps: Seq<Step>,
    same: spec_fn(int, int) -> bool,
    j: nat,
    i: nat,
) -> Option<int>
    decreases steps.len(),
{
    if steps.len() == 0 {
        if j == 0 && i == 0 {
            Some(0)
        } else {
            None
        }
    } else {
        match steps.last() {
            Step::Pair => if j > 0 && i > 0 {
                match alignment_cost(steps.drop_last(), same, (j - 1) as nat, (i - 1) as nat) {
                    Some(cost) => Some(cost + substitution_cost(same(j - 1, i - 1))),
                    None => None,
                }
            } else {
                None
            },
            Step::Delete => if j > 0 {
                match alignment_cost(steps.drop_last(), same, (j - 1) as nat, i) {
                    Some(cost) => Some(cost + 1),
                    None => None,
                }
            } else {
                None
            },
            Step::Insert => if i > 0 {
                match alignment_cost(steps.drop_last(), same, j, (i - 1) as nat) {
                    Some(cost) => Some(cost + 1),
                    None => None,
                }
            } else {
                None
            },
        }
    }
}

/// An alignment of the two prefixes that costs no more than any other.
pub open spec fn cheapest_alignment(same: spec_fn(int, int) -> bool, j: nat, i: nat) -> Seq<Step>
    decreases j + i,
{
    if j == 0 && i == 0 {
        Seq::empty()
    } else if j == 0 {
        cheapest_alignment(same, j, (i - 1) as nat).push(Step::Insert)
    } else if i == 0 {
        cheapest_alignment(same, (j - 1) as nat, i).push(Step::Delete)
    } else {
        let paired = distance_by(same, (j - 1) as nat, (i - 1) as nat) + substitution_cost(
            same(j - 1, i - 1),
        );
        let deleted = distance_by(same, (j - 1) as nat, i) + 1;
        let inserted = distance_by(same, j, (i - 1) as nat) + 1;
        if paired <= deleted && paired <= inserted {
            cheapest_alignment(same, (j - 1) as nat, (i - 1) as nat).push(Step::Pair)
        } else if deleted <= inserted {
            cheapest_alignment(same, (j - 1) as nat, i).push(Step::Delete)
        } else {
            cheapest_alignment(same, j, (i - 1) as nat).push(Step::Insert)
        }
    }
}

/// No alignment of two prefixes costs less than their distance.
pub proof fn lemma_no_alignment_is_cheaper(
    steps: Seq<Step>,
    same: spec_fn(int, int) -> bool,
    j: nat,
    i: nat,
)
    requires
        alignment_cost(steps, same, j, i) is Some,
    ensures
        alignment_cost(steps, same, j, i)->Some_0 >= distance_by(same, j, i),
    decreases steps.len(),
{
    if steps.len() > 0 {
        match steps.last() {
            Step::Pair => {
                lemma_no_alignment_is_cheaper(
                    steps.drop_last(),
                    same,
                    (j - 1) as nat,
                    (i - 1) as nat,
                );
            },
            Step::Delete => {
                lemma_no_alignment_is_cheaper(steps.drop_last(), same, (j - 1) as nat, i);
            },
            Step::Insert => {
                lemma_no_alignment_is_cheaper(steps.drop_last(), same, j, (i - 1) as nat);
            },
        }
    }
}

/// Some alignment of two prefixes costs exactly their distance: with
/// `lemma_no_alignment_is_cheaper`, the distance is the least cost of an
/// alignment.
pub proof fn lemma_cheapest_alignment_costs_the_distance(
    same: spec_fn(int, int) -> bool,
    j: nat,
    i: nat,
)
    ensures
        alignment_cost(cheapest_alignment(same, j, i), same, j, i) == Some(
            distance_by(same, j, i),
        ),
    decreases j + i,
{
    let steps = cheapest_alignment(same, j, i);
    if j == 0 && i == 0 {
    } else if j == 0 {
        lemma_cheapest_alignment_costs_the_distance(same, j, (i - 1) as nat);
        assert(steps.drop_last() =~= cheapest_alignment(same, j, (i - 1) as nat));
    } else if i == 0 {
        lemma_cheapest_alignment_costs_the_distance(same, (j - 1) as nat, i);
        assert(steps.drop_last() =~= cheapest_alignment(same, (j - 1) as nat, i));
    } else {
        lemma_cheapest_alignment_costs_the_distance(same, (j - 1) as nat, (i - 1) as nat);
        lemma_cheapest_alignment_costs_the_distance(same, (j - 1) as nat, i);
        lemma_cheapest_alignment_costs_the_distance(same, j, (i - 1) as nat);
        let paired = distance_by(same, (j - 1) as nat, (i - 1) as nat) + substitution_cost(
            same(j - 1, i - 1),
        );
        let deleted = distance_by(same, (j - 1) as nat, i) + 1;
        let inserted = distance_by(same, j, (i - 1) as nat) + 1;
        if paired <= deleted && paired <= inserted {
            assert(steps.drop_last() =~= cheapest_alignment(
                same,
                (j - 1) as nat,
                (i - 1) as nat,
            ));
        } else if deleted <= inserted {
            assert(steps.drop_last() =~= cheapest_alignment(same, (j - 1) as nat, i));
        } else {
            assert(steps.drop_last() =~= cheapest_alignment(same, j, (i - 1) as nat));
        }
    }
}

/// `same` with the pair `(j, i)` set to `outcome`.
spec fn recorded(same: spec_fn(int, int) -> bool, j: int, i: int, outcome: bool)
    -> spec_fn(int, int) -> bool {
    |x: int, y: int|
        if x == j && y == i {
            outcome
        } else {
            same(x, y)
        }
}

/// The cell `(j, i)` of the table holds the distance between the first `j`
/// elements of the one sequence and the first `i` of the other.
spec fn cell_settled(table: Grid<i32>, same: spec_fn(int, int) -> bool, j: int, i: int)
    -> bool {
    table.at(j, i) == distance_by(same, j as nat, i as nat)
}

/// The edit distance between `vec_1` and `vec_2`, where inserting, deleting
/// and substituting an element cost one each. It is the distance by what the
/// comparisons of the elements gave, each element of `vec_2` compared once
/// with each of `vec_1`; where `T`'s comparison does what its specification
/// says, that is the distance by the specification. Both lengths have to fit
/// in `i32`, and the table of `(len_1 + 1) * (len_2 + 1)` cells in `usize`.
pub fn levenshtein<T: PartialEq>(vec_1: Vec<T>, vec_2: Vec<T>) -> (distance: UtilsResult<i32>)
    requires
        vec_1@.len() <= i32::MAX,
        vec_2@.len() <= i32::MAX,
        (vec_1@.len() + 1) * (vec_2@.len() + 1) <= usize::MAX,
    ensures
        distance is Ok,
        vec_1@.len() == 0 ==> distance->Ok_0 == vec_2@.len(),
        vec_2@.len() == 0 ==> distance->Ok_0 == vec_1@.len(),
        exists|same: spec_fn(int, int) -> bool|
            compares_as(vec_1@, vec_2@, same) && distance->Ok_0 == #[trigger] distance_by(
                same,
                vec_1@.len(),
                vec_2@.len(),
            ),
        T::obeys_eq_spec() ==> distance->Ok_0 == edit_distance(vec_1@, vec_2@),
{
    let len_1 = vec_1.len();
    let len_2 = vec_2.len();
    if len_1 == 0 {
        proof {
            let same = equal_by_spec(vec_1@, vec_2@);
            assert(compares_as(vec_1@, vec_2@, same));
            assert(distance_by(same, 0, len_2 as nat) == len_2);
        }
        return Ok(len_2 as i32);
    }
    if len_2 == 0 {
        proof {
            let same = equal_by_spec(vec_1@, vec_2@);
            assert(compares_as(vec_1@, vec_2@, same));
            assert(distance_by(same, len_1 as nat, 0) == len_1);
        }
        return Ok(len_1 as i32);
    }
    let columns = len_1 + 1;
    let rows = len_2 + 1;
    let mut table: Matrix<i32> = Matrix::new(columns, rows);

    for i in 0..rows
        invariant
            rows == len_2 + 1,
            len_2 <= i32::MAX,
            columns >= 1,
            table@.well_formed(),
            table@.columns == columns,
            table@.rows == rows,
            forall|r: int| 0 <= r < i ==> #[trigger] table@.at(0, r) == r,
    {
        let ghost before = table@;
        let _ = table.set(0, i, i as i32);
        proof {
            assert forall|r: int| 0 <= r < i + 1 implies #[trigger] table@.at(0, r) == r by {
                lemma_put(before, 0, i as int, i as i32, 0, r);
            }
        }
    }

    for j in 0..columns
        invariant
            columns == len_1 + 1,
            len_1 <= i32::MAX,
            rows >= 1,
            table@.well_formed(),
            table@.columns == columns,
            table@.rows == rows,
            forall|r: int| 0 <= r < rows ==> #[trigger] table@.at(0, r) == r,
            forall|c: int| 0 <= c < j ==> #[trigger] table@.at(c, 0) == c,
    {
        let ghost before = table@;
        let _ = table.set(j, 0, j as i32);
        proof {
            assert forall|r: int| 0 <= r < rows implies #[trigger] table@.at(0, r) == r by {
                lemma_put(before, j as int, 0, j as i32, 0, r);
            }
            assert forall|c: int| 0 <= c < j + 1 implies #[trigger] table@.at(c, 0) == c by {
                lemma_put(before, j as int, 0, j as i32, c, 0);
            }
        }
    }

    let ghost mut same: spec_fn(int, int) -> bool = equal_by_spec(vec_1@, vec_2@);

    for i in 1..rows
        invariant
            columns == len_1 + 1,
            rows == len_2 + 1,
            len_1 == vec_1@.len(),
            len_2 == vec_2@.len(),
            len_1 <= i32::MAX,
            len_2 <= i32::MAX,
            table@.well_formed(),
            table@.columns == columns,
            table@.rows == rows,
            forall|c: int, r: int|
                0 <= c < columns && 0 <= r < rows && (r < i || c == 0) ==> #[trigger] cell_settled(
                    table@,
                    same,
                    c,
                    r,
                ),
            forall|x: int, y: int|
                0 <= x < len_1 && 0 <= y < i - 1 ==> call_ensures(
                    T::eq,
                    (&vec_2@[y], &vec_1@[x]),
                    #[trigger] same(x, y),
                ),
            T::obeys_eq_spec() ==> forall|x: int, y: int|
                0 <= x < len_1 && 0 <= y < i - 1 ==> #[trigger] same(x, y) == vec_2@[y].eq_spec(
                    &vec_1@[x],
                ),
    {
        for j in 1..columns
            invariant
                1 <= i < rows,
                columns == len_1 + 1,
                rows == len_2 + 1,
                len_1 == vec_1@.len(),
                len_2 == vec_2@.len(),
                len_1 <= i32::MAX,
                len_2 <= i32::MAX,
                table@.well_formed(),
                table@.columns == columns,
                table@.rows == rows,
                forall|c: int, r: int|
                    0 <= c < columns && 0 <= r < rows && (r < i || c == 0)
                        ==> #[trigger] cell_settled(table@, same, c, r),
                forall|c: int| 0 <= c < j ==> #[trigger] cell_settled(table@, same, c, i as int),
                forall|x: int, y: int|
                    0 <= x < len_1 && (0 <= y < i - 1 || (y == i - 1 && x < j - 1))
                        ==> call_ensures(T::eq, (&vec_2@[y], &vec_1@[x]), #[trigger] same(x, y)),
                T::obeys_eq_spec() ==> forall|x: int, y: int|
                    0 <= x < len_1 && (0 <= y < i - 1 || (y == i - 1 && x < j - 1))
                        ==> #[trigger] same(x, y) == vec_2@[y].eq_spec(&vec_1@[x]),
        {
            let equal = vec_2[i - 1] == vec_1[j - 1];
            let ghost earlier = same;
            proof {
                same = recorded(earlier, j - 1, i - 1, equal);
                assert forall|c: int, r: int|
                    0 <= c < columns && 0 <= r < rows && (r < i || c == 0)
                    implies #[trigger] cell_settled(table@, same, c, r) by {
                    assert(cell_settled(table@, earlier, c, r));
                    lemma_distance_depends_on_pairs(earlier, same, c as nat, r as nat);
                }
                assert forall|c: int| 0 <= c < j implies #[trigger] cell_settled(
                    table@,
                    same,
                    c,
                    i as int,
                ) by {
                    assert(cell_settled(table@, earlier, c, i as int));
                    lemma_distance_depends_on_pairs(earlier, same, c as nat, i as nat);
                }
                assert forall|x: int, y: int|
                    0 <= x < len_1 && (0 <= y < i - 1 || (y == i - 1 && x < j)) implies call_ensures(
                    T::eq,
                    (&vec_2@[y], &vec_1@[x]),
                    #[trigger] same(x, y),
                ) by {
                    if !(x == j - 1 && y == i - 1) {
                        assert(same(x, y) == earlier(x, y));
                    }
                }
                if T::obeys_eq_spec() {
                    assert forall|x: int, y: int|
                        0 <= x < len_1 && (0 <= y < i - 1 || (y == i - 1 && x < j))
                        implies #[trigger] same(x, y) == vec_2@[y].eq_spec(&vec_1@[x]) by {
                        if !(x == j - 1 && y == i - 1) {
                            assert(same(x, y) == earlier(x, y));
                        }
                    }
                }
            }
            let cost: i32 = if equal {
                0
            } else {
                1
            };
            let diagonal = match table.get(j - 1, i - 1) {
                Ok(cell) => cell,
                Err(e) => {
                    return Err(e);
                },
            };
            let above = match table.get(j, i - 1) {
                Ok(cell) => cell,
                Err(e) => {
                    return Err(e);
                },
            };
            let left = match table.get(j - 1, i) {
                Ok(cell) => cell,
                Err(e) => {
                    return Err(e);
                },
            };
            proof {
                assert(cell_settled(table@, same, j - 1, i - 1));
                assert(cell_settled(table@, same, j as int, i - 1));
                assert(cell_settled(table@, same, j - 1, i as int));
                lemma_distance_bounds(same, (j - 1) as nat, (i - 1) as nat);
                lemma_distance_bounds(same, j as nat, (i - 1) as nat);
                lemma_distance_bounds(same, (j - 1) as nat, i as nat);
                assert(same(j - 1, i - 1) == equal);
            }
            let mut val: i32 = diagonal + cost;
            if above < val {
                val = above + 1;
            }
            if left < val {
                val = left + 1;
            }
            let ghost before = table@;
            let _ = table.set(j, i, val);
            proof {
                assert forall|c: int, r: int|
                    0 <= c < columns && 0 <= r < rows && (r < i || c == 0)
                    implies #[trigger] cell_settled(table@, same, c, r) by {
                    lemma_put(before, j as int, i as int, val, c, r);
                    assert(cell_settled(before, same, c, r));
                }
                assert forall|c: int| 0 <= c < j + 1 implies #[trigger] cell_settled(
                    table@,
                    same,
                    c,
                    i as int,
                ) by {
                    lemma_put(before, j as int, i as int, val, c, i as int);
                    if c < j {
                        assert(cell_settled(before, same, c, i as int));
                    }
                }
            }
        }
    }

    proof {
        assert(cell_settled(table@, same, len_1 as int, len_2 as int));
        assert(compares_as(vec_1@, vec_2@, same));
        if T::obeys_eq_spec() {
            lemma_distance_depends_on_pairs(
                same,
                equal_by_spec(vec_1@, vec_2@),
                len_1 as nat,
                len_2 as nat,
            );
        }
    }
    table.get(len_1, len_2)
}

} // verus!
