//! Changes of star counts, their significance and their order of interest.

use crate::github::repo_id::{RepoId, RepoName};
use crate::text::{decimal, decimal_string, views};
use vstd::prelude::*;
use vstd::seq_lib::*;
use vstd::string::*;

verus! {

/// A repository whose star count differs from the one last stored, or that
/// was not stored before.
#[derive(Debug)]
pub struct RepoChange {
    pub repo_id: RepoId,
    pub old_stars: Option<usize>,
    pub new_stars: usize,
}

/// A change as plain values: `old` is absent for a repository seen for the
/// first time.
pub struct Change {
    pub repo: RepoName,
    pub old: Option<nat>,
    pub new: nat,
}

/// An optional star count as an optional natural number.
pub open spec fn stars_of(stars: Option<usize>) -> Option<nat> {
    match stars {
        Some(n) => Some(n as nat),
        None => None,
    }
}

impl View for RepoChange {
    type V = Change;

    open spec fn view(&self) -> Change {
        Change { repo: self.repo_id@, old: stars_of(self.old_stars), new: self.new_stars as nat }
    }
}

/// An exact fraction `num / den` with a positive denominator.
#[derive(Clone, Copy, Debug)]
pub struct Ratio {
    pub num: i128,
    pub den: i128,
}

impl Change {
    /// The numerator of the value: `4 + new` over 20 for a new repository,
    /// which is `0.2 + new / 20`, else `100 * (new - old)`.
    pub open spec fn value_num(self) -> int {
        match self.old {
            Some(old) => 100 * (self.new - old),
            None => 4 + self.new as int,
        }
    }

    /// The denominator of the value: 20 for a new repository, else
    /// `100 + old + new`.
    pub open spec fn value_den(self) -> int {
        match self.old {
            Some(old) => 100 + old as int + self.new as int,
            None => 20,
        }
    }

    /// The numerator of the interest, which is the absolute value of the
    /// value.
    pub open spec fn interest_num(self) -> int {
        if self.value_num() < 0 {
            -self.value_num()
        } else {
            self.value_num()
        }
    }

    /// The display tier of the value: up once above 0.2, twice above 1, three
    /// times above 3; down once below 0, twice below -1, three times below -2.
    pub open spec fn trend(self) -> Seq<char> {
        let num = self.value_num();
        let den = self.value_den();
        if num > 3 * den {
            "`U` `U` `U`"@
        } else if num > den {
            "`U` `U`"@
        } else if 5 * num > den {
            "`U`"@
        } else if num < -2 * den {
            "`D` `D` `D`"@
        } else if num < -den {
            "`D` `D`"@
        } else if num < 0 {
            "`D`"@
        } else {
            ""@
        }
    }

    /// Whether this change is of more interest than `other`.
    pub open spec fn more_interesting_than(self, other: Change) -> bool {
        self.interest_num() * other.value_den() > other.interest_num() * self.value_den()
    }

    /// The address of the repository on GitHub.
    pub open spec fn url(self) -> Seq<char> {
        "https://github.com/"@ + self.repo.text()
    }

    /// What happened, in words.
    pub open spec fn story(self) -> Seq<char> {
        match self.old {
            Some(old) => if old < self.new {
                " rised from "@ + decimal(old) + " to "@ + decimal(self.new)
            } else {
                " dropped from "@ + decimal(old) + " to "@ + decimal(self.new)
            },
            None => if self.new > 1 {
                " is new and has already "@ + decimal(self.new) + " stars"@
            } else {
                " is new"@
            },
        }
    }

    /// The line that reports the change.
    pub open spec fn text(self) -> Seq<char> {
        self.repo.text() + self.story() + " - "@ + self.url()
    }
}

/// A product of numbers within bounds is within the product of the bounds.
proof fn lemma_product_bound(x: int, y: int, most_x: int, most_y: int)
    requires
        0 <= x <= most_x,
        0 <= y <= most_y,
    ensures
        0 <= x * y <= most_x * most_y,
{
    assert(0 <= x * y <= most_x * most_y) by (nonlinear_arith)
        requires
            0 <= x <= most_x,
            0 <= y <= most_y,
    ;
}

/// Whether `a / b` is less than `c / d`, for fractions whose products pass
/// the range of the machine's integers.
fn fraction_less(a: u128, b: u128, c: u128, d: u128) -> (less: bool)
    requires
        a <= 0x80_0000_0000_0000_0000,
        c <= 0x80_0000_0000_0000_0000,
        0 < b <= 0x4_0000_0000_0000_0000,
        0 < d <= 0x4_0000_0000_0000_0000,
    ensures
        less == (a * d < c * b),
{
    proof {
        lemma_product_bound(a as int, (d / 1024) as int, 0x80_0000_0000_0000_0000, 0x100_0000_0000_0000);
        lemma_product_bound(a as int, (d % 1024) as int, 0x80_0000_0000_0000_0000, 1024);
        lemma_product_bound(c as int, (b / 1024) as int, 0x80_0000_0000_0000_0000, 0x100_0000_0000_0000);
        lemma_product_bound(c as int, (b % 1024) as int, 0x80_0000_0000_0000_0000, 1024);
    }
    let left_high = a * (d / 1024) + (a * (d % 1024)) / 1024;
    let left_low = (a * (d % 1024)) % 1024;
    let right_high = c * (b / 1024) + (c * (b % 1024)) / 1024;
    let right_low = (c * (b % 1024)) % 1024;
    proof {
        assert(a * d == 1024 * (a * (d / 1024)) + a * (d % 1024)) by (nonlinear_arith)
            requires
                d == 1024 * (d / 1024) + d % 1024,
        ;
        assert(c * b == 1024 * (c * (b / 1024)) + c * (b % 1024)) by (nonlinear_arith)
            requires
                b == 1024 * (b / 1024) + b % 1024,
        ;
        assert(a * d == 1024 * left_high + left_low);
        assert(c * b == 1024 * right_high + right_low);
    }
    left_high < right_high || (left_high == right_high && left_low < right_low)
}

impl RepoChange {
    /// Whether this change is of more interest than `other`.
    pub fn more_interesting_than(&self, other: &RepoChange) -> (more: bool)
        ensures
            more == self@.more_interesting_than(other@),
    {
        let mine = self.interest();
        let theirs = other.interest();
        assert(0 <= mine.num <= 100 * usize::MAX + 4 && 0 < mine.den <= 100 + 2 * usize::MAX);
        assert(0 <= theirs.num <= 100 * usize::MAX + 4 && 0 < theirs.den <= 100 + 2 * usize::MAX);
        fraction_less(theirs.num as u128, theirs.den as u128, mine.num as u128, mine.den as u128)
    }

    /// The address of the repository on GitHub.
    pub fn url(&self) -> (url: String)
        ensures
            url@ == self@.url(),
    {
        let mut url = String::from_str("https://github.com/");
        url.append(self.repo_id.to_string().as_str());
        url
    }

    /// The significance of the change as an exact fraction: `0.2 + new / 20`
    /// for a new repository, else `100 * (new - old) / (100 + old + new)`.
    pub fn value(&self) -> (value: Ratio)
        ensures
            value.num == self@.value_num(),
            value.den == self@.value_den(),
            value.den > 0,
    {
        let new: i128 = self.new_stars as i128;
        match self.old_stars {
            Some(old_stars) => {
                let old: i128 = old_stars as i128;
                Ratio { num: 100 * (new - old), den: 100 + old + new }
            },
            None => Ratio { num: 4 + new, den: 20 },
        }
    }

    /// How much this change is interesting: the absolute value of its value.
    pub fn interest(&self) -> (interest: Ratio)
        ensures
            interest.num == self@.interest_num(),
            interest.den == self@.value_den(),
            interest.num >= 0,
            interest.den > 0,
    {
        let value = self.value();
        if value.num < 0 {
            Ratio { num: -value.num, den: value.den }
        } else {
            value
        }
    }

    /// The display tier of the change, as Markdown.
    pub fn trend_markdown(&self) -> (trend: &'static str)
        ensures
            trend@ == self@.trend(),
    {
        let value = self.value();
        assert(0 < value.den <= 100 + 2 * usize::MAX);
        assert(-100 * usize::MAX <= value.num <= 100 * usize::MAX + 4);
        if value.num > 3 * value.den {
            "`U` `U` `U`"
        } else if value.num > value.den {
            "`U` `U`"
        } else if 5 * value.num > value.den {
            "`U`"
        } else if value.num + 2 * value.den < 0 {
            "`D` `D` `D`"
        } else if value.num + value.den < 0 {
            "`D` `D`"
        } else if value.num < 0 {
            "`D`"
        } else {
            ""
        }
    }

    /// The line that reports the change.
    pub fn to_string(&self) -> (text: String)
        ensures
            text@ == self@.text(),
    {
        let mut text = self.repo_id.to_string();
        match self.old_stars {
            Some(old_stars) => {
                if old_stars < self.new_stars {
                    text.append(" rised from ");
                } else {
                    text.append(" dropped from ");
                }
                text.append(decimal_string(old_stars).as_str());
                text.append(" to ");
                text.append(decimal_string(self.new_stars).as_str());
            },
            None => {
                if self.new_stars > 1 {
                    text.append(" is new and has already ");
                    text.append(decimal_string(self.new_stars).as_str());
                    text.append(" stars");
                } else {
                    text.append(" is new");
                }
            },
        }
        text.append(" - ");
        text.append(self.url().as_str());
        assert(text@ =~= self@.text());
        text
    }
}

/// Whether the changes stand in descending order of interest.
pub open spec fn by_interest(changes: Seq<Change>) -> bool {
    forall|i: int, j: int|
        0 <= i < j < changes.len() ==> !changes[j].more_interesting_than(changes[i])
}

/// Whether `after` holds the changes of `before` in another order: the
/// change at each place `k` of `after` is the one at place `order[k]` of
/// `before`, and each place of `before` is taken once.
pub open spec fn rearranged(before: Seq<RepoChange>, after: Seq<RepoChange>, order: Seq<int>) -> bool {
    &&& order.len() == after.len()
    &&& before.len() == after.len()
    &&& forall|k: int|
        0 <= k < after.len() ==> 0 <= #[trigger] order[k] < before.len() && after[k]
            == before[order[k]]
    &&& forall|j: int, k: int| 0 <= j < k < order.len() ==> order[j] != order[k]
}

/// Whether changes of the same interest stand in the order of the places
/// that they came from.
pub open spec fn ties_in_order(changes: Seq<Change>, order: Seq<int>) -> bool {
    forall|j: int, k: int|
        0 <= j < k < changes.len() && !changes[j].more_interesting_than(changes[k]) ==> order[j]
            < order[k]
}

/// Sorts the changes by descending interest. Changes of the same interest
/// keep their order.
pub fn sort_by_interest(changes: &mut Vec<RepoChange>)
    ensures
        final(changes)@.to_multiset() == old(changes)@.to_multiset(),
        by_interest(views(final(changes)@)),
        exists|order: Seq<int>|
            rearranged(old(changes)@, final(changes)@, order) && ties_in_order(
                views(final(changes)@),
                order,
            ),
{
    let ghost mut order: Seq<int> = Seq::new(changes@.len(), |k: int| k);
    let mut i: usize = 0;
    while i < changes.len()
        invariant
            i <= changes.len(),
            changes@.to_multiset() == old(changes)@.to_multiset(),
            by_interest(views(changes@).take(i as int)),
            rearranged(old(changes)@, changes@, order),
            forall|k: int| i <= k < order.len() ==> order[k] == k,
            forall|k: int| 0 <= k < i ==> order[k] < i,
            ties_in_order(views(changes@).take(i as int), order),
        decreases changes.len() - i,
    {
        let ghost before = changes@;
        let ghost shown = views(before);
        let ghost placed = order;
        let mut j: usize = i;
        while j > 0 && changes[i].more_interesting_than(&changes[j - 1])
            invariant
                j <= i < changes.len(),
                changes@ == before,
                forall|k: int| j <= k < i ==> before[i as int]@.more_interesting_than(before[k]@),
            decreases j,
        {
            j -= 1;
        }
        if j < i {
            let change = changes.remove(i);
            changes.insert(j, change);
            proof {
                order = placed.remove(i as int).insert(j as int, i as int);
                to_multiset_remove(before, i as int);
                to_multiset_insert(before.remove(i as int), j as int, change);
                assert(changes@.to_multiset() =~= before.to_multiset()) by {
                    broadcast use vstd::multiset::group_multiset_axioms;

                    before.to_multiset_ensures();
                    assert(before.contains(change));
                }
                let x = before[i as int]@;
                let after = views(changes@).take(i + 1);
                assert(after[j as int] == x);
                assert forall|k: int| 0 <= k < changes.len() implies 0 <= #[trigger] order[k]
                    < old(changes)@.len() && changes@[k] == old(changes)@[order[k]] && order[k]
                    == (if k < j {
                    placed[k]
                } else if k == j {
                    i as int
                } else if k <= i {
                    placed[k - 1]
                } else {
                    placed[k]
                }) by {
                    if k < j {
                        assert(changes@[k] == before[k]);
                    } else if k == j {
                        assert(placed[i as int] == i);
                    } else if k <= i {
                        assert(changes@[k] == before[k - 1]);
                    } else {
                        assert(changes@[k] == before[k]);
                    }
                }
                assert forall|p: int, q: int| 0 <= p < q < after.len() implies !after[q].more_interesting_than(
                    after[p],
                ) && (!after[p].more_interesting_than(after[q]) ==> order[p] < order[q]) by {
                    if q < j {
                        assert(after[p] == shown.take(i as int)[p]);
                        assert(after[q] == shown.take(i as int)[q]);
                    } else if q == j {
                        assert(after[p] == shown.take(i as int)[p]);
                        assert(shown.take(i as int)[j - 1] == before[j - 1]@);
                        if p < j - 1 {
                            lemma_interest_order(after[p], before[j - 1]@, x);
                        }
                    } else if p < j {
                        assert(after[p] == shown.take(i as int)[p]);
                        assert(after[q] == shown.take(i as int)[q - 1]);
                    } else if p == j {
                        assert(after[q] == before[q - 1]@);
                        lemma_value_bounded(x);
                        lemma_value_bounded(after[q]);
                    } else {
                        assert(after[p] == shown.take(i as int)[p - 1]);
                        assert(after[q] == shown.take(i as int)[q - 1]);
                    }
                }
            }
        } else {
            proof {
                let after = shown.take(i + 1);
                assert forall|p: int, q: int| 0 <= p < q < after.len() implies !after[q].more_interesting_than(
                    after[p],
                ) && (!after[p].more_interesting_than(after[q]) ==> order[p] < order[q]) by {
                    if q < i {
                        assert(after[p] == shown.take(i as int)[p]);
                        assert(after[q] == shown.take(i as int)[q]);
                    } else {
                        assert(after[q] == before[i as int]@);
                        assert(shown.take(i as int)[i - 1] == before[i - 1]@);
                        assert(after[p] == shown.take(i as int)[p]);
                        if p < i - 1 {
                            lemma_interest_order(after[p], before[i - 1]@, after[q]);
                        }
                    }
                }
            }
        }
        i += 1;
    }
    assert(views(changes@).take(i as int) =~= views(changes@));
}

/// Where a change is of no more interest than a second, and a third of no
/// more than the first, the third is of no more interest than the second.
pub proof fn lemma_interest_order(most: Change, middle: Change, least: Change)
    requires
        !middle.more_interesting_than(most),
        !least.more_interesting_than(middle),
    ensures
        !least.more_interesting_than(most),
{
    lemma_value_bounded(most);
    lemma_value_bounded(middle);
    lemma_value_bounded(least);
    let a = most.interest_num();
    let b = middle.interest_num();
    let c = least.interest_num();
    let x = most.value_den();
    let y = middle.value_den();
    let z = least.value_den();
    assert(c * x <= a * z) by (nonlinear_arith)
        requires
            b * x <= a * y,
            c * y <= b * z,
            0 <= a,
            0 <= b,
            0 <= c,
            0 < x,
            0 < y,
            0 < z,
    ;
}

/// The value of a change lies strictly between -100 and 100.
pub proof fn lemma_value_bounded(change: Change)
    ensures
        change.value_den() > 0,
        change.old is Some ==> -100 * change.value_den() < change.value_num() < 100
            * change.value_den(),
{
}

/// Among repositories seen for the first time, more stars give a strictly
/// greater value.
pub proof fn lemma_value_of_new_is_monotonic(fewer: Change, more: Change)
    requires
        fewer.old is None,
        more.old is None,
        fewer.new < more.new,
    ensures
        fewer.value_num() * more.value_den() < more.value_num() * fewer.value_den(),
{
}

/// Between two observations of a repository, the value is positive for a
/// rise, negative for a drop and zero where nothing changed.
pub proof fn lemma_value_sign(change: Change)
    requires
        change.old is Some,
    ensures
        change.value_num() > 0 <==> change.new > change.old->0,
        change.value_num() < 0 <==> change.new < change.old->0,
        change.value_num() == 0 <==> change.new == change.old->0,
        change.value_den() > 0,
{
}

} // verus!
