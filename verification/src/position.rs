//! Characters with their places in a line, and the removal of duplicates.

use vstd::prelude::*;

use crate::ordering;
use crate::ordering::Ordinal;

verus! {

/// A recognized character with its confidence, its place in the line and the
/// frame it was read from.
pub struct CharWithPosition {
    pub text: String,
    pub conf: Ordinal,
    pub x0: u32,
    pub x1: u32,
    pub time_step: usize,
}

/// What a `CharWithPosition` says.
pub struct Placed {
    pub text: Seq<char>,
    pub conf: Ordinal,
    pub x0: int,
    pub x1: int,
    pub time_step: int,
}

impl View for CharWithPosition {
    type V = Placed;

    open spec fn view(&self) -> Placed {
        Placed {
            text: self.text@,
            conf: self.conf,
            x0: self.x0 as int,
            x1: self.x1 as int,
            time_step: self.time_step as int,
        }
    }
}

impl CharWithPosition {
    /// A copy.
    pub fn copy(&self) -> (c: CharWithPosition)
        ensures
            c@ == self@,
    {
        CharWithPosition {
            text: self.text.clone(),
            conf: self.conf,
            x0: self.x0,
            x1: self.x1,
            time_step: self.time_step,
        }
    }
}

/// The characters as `Placed`.
pub open spec fn placed(chars: Seq<CharWithPosition>) -> Seq<Placed> {
    Seq::new(chars.len(), |p: int| chars[p]@)
}

/// The width of a character, at least one.
pub open spec fn width(c: Placed) -> int {
    if c.x1 - c.x0 < 1 {
        1
    } else {
        c.x1 - c.x0
    }
}

/// The mean width of two characters.
pub open spec fn mean_width(a: Placed, b: Placed) -> int {
    (width(a) + width(b)) / 2
}

/// The distance of the left edges of two characters.
pub open spec fn left_distance(a: Placed, b: Placed) -> int {
    if a.x0 < b.x0 {
        b.x0 - a.x0
    } else {
        a.x0 - b.x0
    }
}

/// The width that two characters have in common; negative if they are apart.
pub open spec fn common_width(a: Placed, b: Placed) -> int {
    (if a.x1 < b.x1 {
        a.x1
    } else {
        b.x1
    }) - (if a.x0 > b.x0 {
        a.x0
    } else {
        b.x0
    })
}

/// Two readings of which more than half lies over the other.
pub open spec fn lie_together(a: Placed, b: Placed) -> bool {
    common_width(a, b) > 0 && 2 * common_width(a, b) > mean_width(a, b)
}

/// Two readings are of one character: the same one within half a width, or two
/// that lie together.
pub open spec fn is_duplicate(a: Placed, b: Placed) -> bool {
    ||| a.text == b.text && left_distance(a, b) < mean_width(a, b) / 2
    ||| lie_together(a, b)
}

/// `c` takes the place of `other`: they lie together, and `c` is more confident.
pub open spec fn outdoes(c: Placed, other: Placed) -> bool {
    lie_together(c, other) && c.conf > other.conf
}

/// How many of the last kept characters a new one is compared with.
pub const LOOK_BACK: usize = 5;

/// The latest of the last kept characters before place `n` that `c` is a
/// duplicate of.
pub open spec fn latest_duplicate(kept: Seq<Placed>, c: Placed, n: int) -> Option<int>
    decreases n,
{
    if n <= 0 || kept.len() - n >= LOOK_BACK {
        None
    } else if is_duplicate(c, kept[n - 1]) {
        Some(n - 1)
    } else {
        latest_duplicate(kept, c, n - 1)
    }
}

/// The kept characters after `c` has taken the places of its duplicates, if it
/// outdoes them all.
pub open spec fn with_added(kept: Seq<Placed>, c: Placed) -> Option<Seq<Placed>>
    decreases kept.len(),
{
    match latest_duplicate(kept, c, kept.len() as int) {
        None => Some(kept.push(c)),
        Some(p) => {
            if 0 <= p < kept.len() && outdoes(c, kept[p]) {
                with_added(kept.remove(p), c)
            } else {
                None
            }
        },
    }
}

/// Of the first `k` characters, those that are left when each new one either
/// takes the places of its duplicates among the last kept, or is dropped for one
/// that it does not outdo.
pub open spec fn distinct(all: Seq<Placed>, k: int) -> Seq<Placed>
    decreases k,
{
    if k <= 0 {
        Seq::empty()
    } else {
        let kept = distinct(all, k - 1);
        match with_added(kept, all[k - 1]) {
            Some(longer) => longer,
            None => kept,
        }
    }
}

/// The characters from left to right; at one place the most confident first.
pub open spec fn in_order(all: Seq<Placed>) -> Seq<Placed> {
    let by_conf = ordering::sorted_positions(
        ordering::falling(Seq::new(all.len(), |p: int| all[p].conf)),
    );
    let ranked = Seq::new(all.len(), |p: int| all[by_conf[p] as int]);
    let by_place = ordering::sorted_positions(Seq::new(all.len(), |p: int| ranked[p].x0 as i64));
    Seq::new(all.len(), |p: int| ranked[by_place[p] as int])
}

fn width_of(c: &CharWithPosition) -> (w: i64)
    requires
        c.x0 <= c.x1,
    ensures
        w == width(c@),
{
    let w: i64 = c.x1 as i64 - c.x0 as i64;
    if w < 1 {
        1
    } else {
        w
    }
}

/// Tells whether two readings lie together.
pub fn lies_over(a: &CharWithPosition, b: &CharWithPosition) -> (yes: bool)
    requires
        a.x0 <= a.x1,
        b.x0 <= b.x1,
    ensures
        yes == lie_together(a@, b@),
{
    let mean: i64 = (width_of(a) + width_of(b)) / 2;
    let right: i64 = if a.x1 < b.x1 {
        a.x1 as i64
    } else {
        b.x1 as i64
    };
    let left: i64 = if a.x0 > b.x0 {
        a.x0 as i64
    } else {
        b.x0 as i64
    };
    let common: i64 = right - left;
    common > 0 && 2 * common > mean
}

/// Tells whether two readings are of one character.
pub fn are_duplicates(a: &CharWithPosition, b: &CharWithPosition) -> (yes: bool)
    requires
        a.x0 <= a.x1,
        b.x0 <= b.x1,
    ensures
        yes == is_duplicate(a@, b@),
{
    let mean: i64 = (width_of(a) + width_of(b)) / 2;
    let apart: i64 = if a.x0 < b.x0 {
        b.x0 as i64 - a.x0 as i64
    } else {
        a.x0 as i64 - b.x0 as i64
    };
    (a.text == b.text && apart < mean / 2) || lies_over(a, b)
}

fn find_duplicate(kept: &Vec<CharWithPosition>, c: &CharWithPosition) -> (place: Option<usize>)
    requires
        c.x0 <= c.x1,
        forall|q: int| 0 <= q < kept.len() ==> (#[trigger] kept[q]).x0 <= kept[q].x1,
    ensures
        match place {
            None => latest_duplicate(placed(kept@), c@, kept.len() as int) is None,
            Some(p) => p < kept.len() && latest_duplicate(placed(kept@), c@, kept.len() as int) == Some(p as int),
        },
{
    let ghost all = placed(kept@);
    let mut n: usize = kept.len();
    while n > 0 && kept.len() - n < LOOK_BACK
        invariant
            n <= kept.len(),
            c.x0 <= c.x1,
            all == placed(kept@),
            forall|q: int| 0 <= q < kept.len() ==> (#[trigger] kept[q]).x0 <= kept[q].x1,
            latest_duplicate(all, c@, kept.len() as int) == latest_duplicate(all, c@, n as int),
        decreases n,
    {
        assert(all[n - 1] == kept[n - 1]@);
        if are_duplicates(c, &kept[n - 1]) {
            return Some(n - 1);
        }
        n = n - 1;
    }
    None
}

fn take_places(kept: &Vec<CharWithPosition>, c: &CharWithPosition) -> (longer: Option<Vec<CharWithPosition>>)
    requires
        c.x0 <= c.x1,
        forall|q: int| 0 <= q < kept.len() ==> (#[trigger] kept[q]).x0 <= kept[q].x1,
    ensures
        match longer {
            None => with_added(placed(kept@), c@) is None,
            Some(v) => with_added(placed(kept@), c@) == Some(placed(v@)) && forall|q: int|
                0 <= q < v.len() ==> (#[trigger] v[q]).x0 <= v[q].x1,
        },
{
    let ghost all = placed(kept@);
    let mut rest: Vec<CharWithPosition> = Vec::new();
    while rest.len() < kept.len()
        invariant
            rest.len() <= kept.len(),
            forall|q: int| 0 <= q < kept.len() ==> (#[trigger] kept[q]).x0 <= kept[q].x1,
            forall|q: int| 0 <= q < rest.len() ==> (#[trigger] rest[q])@ == kept[q]@,
        decreases kept.len() - rest.len(),
    {
        rest.push(kept[rest.len()].copy());
    }
    assert(placed(rest@) =~= all);
    assert forall|q: int| 0 <= q < rest.len() implies (#[trigger] rest[q]).x0 <= rest[q].x1 by {
        assert(rest[q]@ == kept[q]@);
    }
    loop
        invariant
            c.x0 <= c.x1,
            forall|q: int| 0 <= q < rest.len() ==> (#[trigger] rest[q]).x0 <= rest[q].x1,
            with_added(placed(rest@), c@) == with_added(all, c@),
            all == placed(kept@),
        decreases rest.len(),
    {
        let ghost before = placed(rest@);
        match find_duplicate(&rest, c) {
            None => {
                rest.push(c.copy());
                assert(placed(rest@) =~= before.push(c@));
                return Some(rest);
            },
            Some(p) => {
                assert(before[p as int] == rest[p as int]@);
                if !(lies_over(c, &rest[p]) && c.conf > rest[p].conf) {
                    return None;
                }
                rest.remove(p);
                assert(placed(rest@) =~= before.remove(p as int));
            },
        }
    }
}

/// Removes duplicates by their places: puts the characters in order from left
/// to right and of readings of one character keeps one; of two that lie together,
/// the more confident.
pub fn deduplicate_by_position(chars: &Vec<CharWithPosition>) -> (kept: Vec<CharWithPosition>)
    requires
        forall|p: int| 0 <= p < chars.len() ==> (#[trigger] chars[p]).x0 <= chars[p].x1,
    ensures
        placed(kept@) == distinct(in_order(placed(chars@)), chars.len() as int),
        forall|p: int, q: int| 0 <= p < q < kept.len() ==> (#[trigger] kept[p]).x0 <= (#[trigger] kept[q]).x0,
{
    let ghost all = placed(chars@);
    let mut confs: Vec<Ordinal> = Vec::new();
    while confs.len() < chars.len()
        invariant
            confs.len() <= chars.len(),
            forall|p: int| 0 <= p < confs.len() ==> #[trigger] confs[p] == chars[p].conf,
        decreases chars.len() - confs.len(),
    {
        confs.push(chars[confs.len()].conf);
    }
    assert(confs@ =~= Seq::new(all.len(), |p: int| all[p].conf));
    let by_conf = ordering::order_falling(&confs);
    let ghost ranked = Seq::new(all.len(), |p: int| all[by_conf[p] as int]);
    let mut places: Vec<i64> = Vec::new();
    while places.len() < chars.len()
        invariant
            places.len() <= chars.len(),
            by_conf.len() == chars.len(),
            all == placed(chars@),
            ranked == Seq::new(all.len(), |p: int| all[by_conf[p] as int]),
            forall|p: int| 0 <= p < by_conf.len() ==> (#[trigger] by_conf[p]) < chars.len(),
            forall|p: int| 0 <= p < places.len() ==> #[trigger] places[p] == ranked[p].x0 as i64,
        decreases chars.len() - places.len(),
    {
        let at = by_conf[places.len()];
        places.push(chars[at].x0 as i64);
    }
    assert(places@ =~= Seq::new(all.len(), |p: int| ranked[p].x0 as i64));
    let by_place = ordering::stable_order(&places);
    let ghost sorted = in_order(all);
    let mut kept: Vec<CharWithPosition> = Vec::new();
    let mut k: usize = 0;
    assert(placed(kept@) =~= Seq::empty());
    while k < chars.len()
        invariant
            k <= chars.len(),
            by_conf.len() == chars.len(),
            by_place.len() == chars.len(),
            all == placed(chars@),
            sorted == in_order(all),
            forall|p: int| 0 <= p < by_conf.len() ==> (#[trigger] by_conf[p]) < chars.len(),
            forall|p: int| 0 <= p < by_place.len() ==> (#[trigger] by_place[p]) < chars.len(),
            forall|p: int| 0 <= p < chars.len() ==> (#[trigger] chars[p]).x0 <= chars[p].x1,
            forall|p: int| 0 <= p < kept.len() ==> (#[trigger] kept[p]).x0 <= kept[p].x1,
            forall|p: int|
                0 <= p < chars.len() ==> #[trigger] sorted[p] == chars[by_conf[by_place[p] as int] as int]@,
            placed(kept@) == distinct(sorted, k as int),
        decreases chars.len() - k,
    {
        let c = &chars[by_conf[by_place[k]]];
        let ghost before = placed(kept@);
        assert(sorted[k as int] == c@);
        match find_duplicate(&kept, c) {
            None => {
                kept.push(c.copy());
                assert(placed(kept@) =~= before.push(c@));
            },
            Some(_) => {
                if let Some(longer) = take_places(&kept, c) {
                    kept = longer;
                }
            },
        }
        k = k + 1;
    }
    proof {
        assert forall|p: int, q: int| 0 <= p < q < sorted.len() implies (#[trigger] sorted[p]).x0 <= (#[trigger] sorted[
            q]).x0 by {
            assert(ordering::comes_before(places@, by_place[p] as int, by_place[q] as int));
        }
        law_kept_from_left_to_right(sorted, sorted.len() as int);
        assert forall|p: int, q: int| 0 <= p < q < kept.len() implies (#[trigger] kept[p]).x0 <= (#[trigger] kept[q]).x0 by {
            assert(placed(kept@)[p] == kept[p]@);
            assert(placed(kept@)[q] == kept[q]@);
        }
    }
    kept
}

proof fn lemma_latest_duplicate(kept: Seq<Placed>, c: Placed, n: int)
    requires
        0 <= n <= kept.len(),
    ensures
        match latest_duplicate(kept, c, n) {
            None => forall|q: int| 0 <= q < n && kept.len() - q <= LOOK_BACK ==> !is_duplicate(c, #[trigger] kept[q]),
            Some(p) => 0 <= p < n && is_duplicate(c, kept[p]),
        },
    decreases n,
{
    if n > 0 && kept.len() - n < LOOK_BACK && !is_duplicate(c, kept[n - 1]) {
        lemma_latest_duplicate(kept, c, n - 1);
    }
}

/// A new reading that is kept comes last, is a duplicate of none of the five
/// before it, and only readings leave for it that it lies over and is more
/// confident than; what stays keeps its order. One that is not kept is a
/// duplicate of one that is.
pub proof fn law_adding(kept: Seq<Placed>, c: Placed)
    ensures
        match with_added(kept, c) {
            None => exists|p: int| 0 <= p < kept.len() && is_duplicate(c, #[trigger] kept[p]) && !outdoes(c, kept[p]),
            Some(longer) => {
                &&& 0 < longer.len() <= kept.len() + 1
                &&& longer.last() == c
                &&& forall|q: int|
                    0 <= q < longer.len() - 1 && longer.len() - 1 - q <= 5 ==> !is_duplicate(
                        c,
                        #[trigger] longer[q],
                    )
                &&& forall|q: int|
                    0 <= q < kept.len() ==> longer.drop_last().contains(#[trigger] kept[q]) || outdoes(c, kept[q])
                &&& is_part(longer.drop_last(), kept)
            },
        },
    decreases kept.len(),
{
    lemma_latest_duplicate(kept, c, kept.len() as int);
    match latest_duplicate(kept, c, kept.len() as int) {
        None => {
            let longer = kept.push(c);
            assert(longer.drop_last() =~= kept);
            assert forall|q: int| 0 <= q < longer.len() - 1 && longer.len() - 1 - q <= 5 implies !is_duplicate(
                c,
                #[trigger] longer[q],
            ) by {
                assert(longer[q] == kept[q]);
            }
            assert forall|q: int| 0 <= q < kept.len() implies longer.drop_last().contains(#[trigger] kept[q]) by {
                assert(longer.drop_last()[q] == kept[q]);
            }
            lemma_part_of_itself(kept);
        },
        Some(p) => {
            if outdoes(c, kept[p]) {
                let rest = kept.remove(p);
                law_adding(rest, c);
                match with_added(kept, c) {
                    None => {
                        let w = choose|w: int|
                            0 <= w < rest.len() && is_duplicate(c, #[trigger] rest[w]) && !outdoes(c, rest[w]);
                        let at = if w < p {
                            w
                        } else {
                            w + 1
                        };
                        assert(rest[w] == kept[at]);
                    },
                    Some(longer) => {
                        assert forall|q: int| 0 <= q < kept.len() implies longer.drop_last().contains(
                            #[trigger] kept[q],
                        ) || outdoes(c, kept[q]) by {
                            if q < p {
                                assert(rest[q] == kept[q]);
                            } else if q > p {
                                assert(rest[q - 1] == kept[q]);
                            }
                        }
                        lemma_part_of_longer(longer.drop_last(), kept, p);
                    },
                }
            }
        },
    }
}

/// `part` is what is left of `all` when some are taken out.
pub open spec fn is_part(part: Seq<Placed>, all: Seq<Placed>) -> bool
    decreases all.len(),
{
    if part.len() == 0 {
        true
    } else if all.len() == 0 {
        false
    } else if part.last() == all.last() && is_part(part.drop_last(), all.drop_last()) {
        true
    } else {
        is_part(part, all.drop_last())
    }
}

proof fn lemma_part_of_itself(all: Seq<Placed>)
    ensures
        is_part(all, all),
    decreases all.len(),
{
    if all.len() > 0 {
        lemma_part_of_itself(all.drop_last());
    }
}

proof fn lemma_part_of_longer(part: Seq<Placed>, all: Seq<Placed>, p: int)
    requires
        0 <= p < all.len(),
        is_part(part, all.remove(p)),
    ensures
        is_part(part, all),
    decreases all.len(),
{
    let rest = all.remove(p);
    if p == all.len() - 1 {
        assert(rest =~= all.drop_last());
    } else if part.len() > 0 {
        assert(rest.drop_last() =~= all.drop_last().remove(p));
        assert(rest.last() == all.last());
        if part.last() == rest.last() && is_part(part.drop_last(), rest.drop_last()) {
            lemma_part_of_longer(part.drop_last(), all.drop_last(), p);
        } else {
            lemma_part_of_longer(part, all.drop_last(), p);
        }
    }
}

proof fn lemma_part_holds(part: Seq<Placed>, all: Seq<Placed>, i: int, j: int)
    requires
        is_part(part, all),
        0 <= i <= j < part.len(),
    ensures
        exists|a: int, b: int|
            0 <= a <= b < all.len() && (i < j ==> a < b) && #[trigger] all[a] == part[i] && #[trigger] all[b]
                == part[j],
    decreases all.len(),
{
    let fore = all.drop_last();
    if part.last() == all.last() && is_part(part.drop_last(), fore) {
        if j < part.len() - 1 {
            lemma_part_holds(part.drop_last(), fore, i, j);
            let (a, b) = choose|a: int, b: int|
                0 <= a <= b < fore.len() && (i < j ==> a < b) && #[trigger] fore[a] == part.drop_last()[i]
                    && #[trigger] fore[b] == part.drop_last()[j];
            assert(all[a] == part[i] && all[b] == part[j]);
        } else if i < j {
            lemma_part_holds(part.drop_last(), fore, i, i);
            let (a, b) = choose|a: int, b: int|
                0 <= a <= b < fore.len() && #[trigger] fore[a] == part.drop_last()[i] && #[trigger] fore[b]
                    == part.drop_last()[i];
            assert(all[a] == part[i] && all[all.len() - 1] == part[j]);
        } else {
            assert(all[all.len() - 1] == part[i] && all[all.len() - 1] == part[j]);
        }
    } else {
        lemma_part_holds(part, fore, i, j);
        let (a, b) = choose|a: int, b: int|
            0 <= a <= b < fore.len() && (i < j ==> a < b) && #[trigger] fore[a] == part[i] && #[trigger] fore[b]
                == part[j];
        assert(all[a] == part[i] && all[b] == part[j]);
    }
}

/// Every character that is kept is one of those given.
pub proof fn law_kept_are_given(all: Seq<Placed>, k: int)
    requires
        0 <= k <= all.len(),
    ensures
        distinct(all, k).len() <= k,
        forall|p: int| 0 <= p < distinct(all, k).len() ==> all.take(k).contains(#[trigger] distinct(all, k)[p]),
    decreases k,
{
    if k > 0 {
        law_kept_are_given(all, k - 1);
        let before = distinct(all, k - 1);
        law_adding(before, all[k - 1]);
        assert forall|p: int| 0 <= p < distinct(all, k).len() implies all.take(k).contains(
            #[trigger] distinct(all, k)[p],
        ) by {
            let now = distinct(all, k);
            if with_added(before, all[k - 1]) is Some && p == now.len() - 1 {
                assert(all.take(k)[k - 1] == now[p]);
            } else {
                let at = if with_added(before, all[k - 1]) is Some {
                    lemma_part_holds(now.drop_last(), before, p, p);
                    choose|a: int| 0 <= a < before.len() && #[trigger] before[a] == now.drop_last()[p]
                } else {
                    p
                };
                assert(all.take(k - 1).contains(before[at]));
                let fore = all.take(k - 1);
                let w = choose|w: int| 0 <= w < fore.len() && #[trigger] fore[w] == before[at];
                assert(all.take(k)[w] == now[p]);
            }
        }
    }
}

/// Characters that come from left to right are kept from left to right.
pub proof fn law_kept_from_left_to_right(all: Seq<Placed>, k: int)
    requires
        0 <= k <= all.len(),
        forall|p: int, q: int| 0 <= p < q < all.len() ==> (#[trigger] all[p]).x0 <= (#[trigger] all[q]).x0,
    ensures
        forall|p: int, q: int|
            0 <= p < q < distinct(all, k).len() ==> (#[trigger] distinct(all, k)[p]).x0 <= (#[trigger] distinct(all, k)[
                q]).x0,
    decreases k,
{
    if k > 0 {
        law_kept_from_left_to_right(all, k - 1);
        law_kept_are_given(all, k - 1);
        let before = distinct(all, k - 1);
        let now = distinct(all, k);
        law_adding(before, all[k - 1]);
        if with_added(before, all[k - 1]) is Some {
            assert forall|p: int, q: int| 0 <= p < q < now.len() implies (#[trigger] now[p]).x0 <= (#[trigger] now[
                q]).x0 by {
                if q < now.len() - 1 {
                    lemma_part_holds(now.drop_last(), before, p, q);
                    let (a, b) = choose|a: int, b: int|
                        0 <= a <= b < before.len() && a < b && #[trigger] before[a] == now.drop_last()[p]
                            && #[trigger] before[b] == now.drop_last()[q];
                    assert(before[a].x0 <= before[b].x0);
                } else {
                    lemma_part_holds(now.drop_last(), before, p, p);
                    let a = choose|a: int| 0 <= a < before.len() && #[trigger] before[a] == now.drop_last()[p];
                    assert(all.take(k - 1).contains(before[a]));
                    let fore = all.take(k - 1);
                    let w = choose|w: int| 0 <= w < fore.len() && #[trigger] fore[w] == before[a];
                    assert(all[w].x0 <= all[k - 1].x0);
                }
            }
        }
    }
}

/// Of two readings that lie together the more confident one is kept, alone.
pub proof fn law_more_confident_is_kept(a: Placed, b: Placed)
    requires
        lie_together(a, b),
        a.conf > b.conf,
    ensures
        distinct(seq![a, b], 2) == seq![a],
        distinct(seq![b, a], 2) == seq![a],
{
    reveal_with_fuel(distinct, 3);
    reveal_with_fuel(latest_duplicate, 3);
    reveal_with_fuel(with_added, 3);
    assert(distinct(seq![a, b], 1) =~= seq![a]);
    assert(distinct(seq![b, a], 1) =~= seq![b]);
    assert(seq![b].remove(0) =~= Seq::empty());
    assert(Seq::<Placed>::empty().push(a) =~= seq![a]);
}

/// A character and its confidence.
pub struct Scored {
    pub text: Seq<char>,
    pub conf: Ordinal,
}

/// The characters as `Scored`.
pub open spec fn scored(chars: Seq<(String, Ordinal)>) -> Seq<Scored> {
    Seq::new(chars.len(), |p: int| Scored { text: chars[p].0@, conf: chars[p].1 })
}

/// The first `k` characters with each run of one character made single, at the
/// highest confidence of the run.
pub open spec fn collapsed(all: Seq<Scored>, k: int) -> Seq<Scored>
    decreases k,
{
    if k <= 0 {
        Seq::empty()
    } else {
        let before = collapsed(all, k - 1);
        let c = all[k - 1];
        if before.len() > 0 && before.last().text == c.text {
            if c.conf > before.last().conf {
                before.drop_last().push(c)
            } else {
                before
            }
        } else {
            before.push(c)
        }
    }
}

/// Makes runs of one character single, at the highest confidence of the run.
pub fn remove_consecutive_duplicates(chars: &Vec<(String, Ordinal)>) -> (kept: Vec<(String, Ordinal)>)
    ensures
        scored(kept@) == collapsed(scored(chars@), chars.len() as int),
{
    let ghost all = scored(chars@);
    let mut kept: Vec<(String, Ordinal)> = Vec::new();
    let mut k: usize = 0;
    assert(scored(kept@) =~= Seq::empty());
    while k < chars.len()
        invariant
            k <= chars.len(),
            all == scored(chars@),
            scored(kept@) == collapsed(all, k as int),
        decreases chars.len() - k,
    {
        let ghost before = scored(kept@);
        let n: usize = kept.len();
        let c = (chars[k].0.clone(), chars[k].1);
        let ghost model = Scored { text: c.0@, conf: c.1 };
        assert(all[k as int] == model);
        if n > 0 && kept[n - 1].0 == c.0 {
            assert(before.last() == (Scored { text: kept[n - 1].0@, conf: kept[n - 1].1 }));
            if c.1 > kept[n - 1].1 {
                kept.pop();
                kept.push(c);
                assert(scored(kept@) =~= before.drop_last().push(model));
            }
        } else {
            proof {
                if n > 0 {
                    assert(before.last() == (Scored { text: kept[n - 1].0@, conf: kept[n - 1].1 }));
                }
            }
            kept.push(c);
            assert(scored(kept@) =~= before.push(model));
        }
        k = k + 1;
    }
    kept
}

/// After runs have been made single, neighbours differ.
pub proof fn law_collapsed_neighbours_differ(all: Seq<Scored>, k: int, p: int)
    requires
        0 <= k <= all.len(),
        0 <= p < collapsed(all, k).len() - 1,
    ensures
        collapsed(all, k)[p].text != collapsed(all, k)[p + 1].text,
    decreases k,
{
    let before = collapsed(all, k - 1);
    if p + 1 < before.len() {
        law_collapsed_neighbours_differ(all, k - 1, p);
    }
}

/// When two readings are of one character. They lie together where they share more
/// than half of their mean width, counted in whole columns; and they are of one
/// character then, or where they are the same and begin less than half of it apart.
pub proof fn law_readings_of_one_character(a: Placed, b: Placed, mean: int, shared: Set<int>)
    requires
        a.x0 < a.x1,
        b.x0 < b.x1,
        2 * mean <= (a.x1 - a.x0) + (b.x1 - b.x0) <= 2 * mean + 1,
        shared == Set::new(|x: int| a.x0 <= x < a.x1 && b.x0 <= x < b.x1),
    ensures
        lie_together(a, b) <==> 2 * shared.len() > mean,
        is_duplicate(a, b) <==> 2 * shared.len() > mean || a.text == b.text && (a.x0 - b.x0 < mean / 2 && b.x0 - a.x0
            < mean / 2),
        is_duplicate(a, b) == is_duplicate(b, a),
{
    let left = if a.x0 > b.x0 {
        a.x0
    } else {
        b.x0
    };
    let right = if a.x1 < b.x1 {
        a.x1
    } else {
        b.x1
    };
    assert(shared =~= vstd::set_lib::set_int_range(left, right));
    if left < right {
        vstd::set_lib::lemma_int_range(left, right);
    } else {
        assert(shared =~= Set::empty());
    }
}

proof fn lemma_not_among_the_last(kept: Seq<Placed>, c: Placed, n: int)
    requires
        0 <= n <= kept.len(),
        forall|q: int| 0 <= q < kept.len() && kept.len() - q <= 5 ==> !is_duplicate(c, #[trigger] kept[q]),
    ensures
        latest_duplicate(kept, c, n) is None,
    decreases n,
{
    if n > 0 && kept.len() - n < 5 {
        assert(!is_duplicate(c, kept[n - 1]));
        lemma_not_among_the_last(kept, c, n - 1);
    }
}

/// A reading that is a duplicate of none of the last five is added, whatever was
/// kept before those.
pub proof fn law_only_the_last_five_count(kept: Seq<Placed>, c: Placed)
    requires
        forall|q: int| 0 <= q < kept.len() && kept.len() - q <= 5 ==> !is_duplicate(c, #[trigger] kept[q]),
    ensures
        with_added(kept, c) == Some(kept.push(c)),
{
    lemma_not_among_the_last(kept, c, kept.len() as int);
}

} // verus!
