//! Cutting a region that holds several lines of text.
//!
//! The dark pixels of each row are counted. Rows with enough of them form
//! bands, and each band of some height is a line.

use vstd::prelude::*;

use crate::gray;
use crate::gray::Gray;

verus! {

/// A pixel below this value is dark.
pub const DARK: u8 = 200;

/// A region with fewer rows is never cut.
pub const LEAST_HEIGHT: u32 = 30;

/// A band with fewer rows is no line.
pub const LEAST_BAND: usize = 10;

/// Rows that are added above and below a line.
pub const MARGIN: usize = 2;

/// How many of the first `x` pixels of row `y` are dark.
pub open spec fn dark_pixels(img: Gray, y: int, x: int) -> nat
    decreases x,
{
    if x <= 0 {
        0
    } else {
        dark_pixels(img, y, x - 1) + (if img.at(x - 1, y) < DARK {
            1nat
        } else {
            0
        })
    }
}

/// The dark pixels of each row.
pub open spec fn profile(img: Gray) -> Seq<nat> {
    Seq::new(img.height() as nat, |y: int| dark_pixels(img, y, img.width() as int))
}

/// The largest of the first `k` counts.
pub open spec fn peak(counts: Seq<nat>, k: int) -> nat
    decreases k,
{
    if k <= 0 {
        0
    } else {
        let before = peak(counts, k - 1);
        if counts[k - 1] > before {
            counts[k - 1]
        } else {
            before
        }
    }
}

/// A row belongs to a band if its count is above a tenth of the largest, and
/// above one.
pub open spec fn threshold(counts: Seq<nat>) -> nat {
    let tenth = peak(counts, counts.len() as int) / 10;
    if tenth < 1 {
        1
    } else {
        tenth
    }
}

/// The bands that end within the first `k` rows, and the row where a band that
/// has not ended begins.
pub open spec fn bands_within(counts: Seq<nat>, limit: nat, k: int) -> (Seq<(int, int)>, Option<int>)
    decreases k,
{
    if k <= 0 {
        (Seq::empty(), None)
    } else {
        let (found, open) = bands_within(counts, limit, k - 1);
        match open {
            None => if counts[k - 1] > limit {
                (found, Some(k - 1))
            } else {
                (found, None)
            },
            Some(start) => if counts[k - 1] > limit {
                (found, Some(start))
            } else if k - 1 - start >= LEAST_BAND {
                (found.push((start, k - 1)), None)
            } else {
                (found, None)
            },
        }
    }
}

/// The bands of rows above the limit, from the first row up to the end.
pub open spec fn bands(counts: Seq<nat>, limit: nat) -> Seq<(int, int)> {
    let n = counts.len() as int;
    let (found, open) = bands_within(counts, limit, n);
    match open {
        Some(start) => if n - start >= LEAST_BAND {
            found.push((start, n))
        } else {
            found
        },
        None => found,
    }
}

/// A band with its margin, within `height` rows.
pub open spec fn widened(band: (int, int), height: int) -> (int, int) {
    (
        if band.0 < MARGIN {
            0
        } else {
            band.0 - MARGIN
        },
        if band.1 + MARGIN > height {
            height
        } else {
            band.1 + MARGIN
        },
    )
}

/// The rows that a region is cut into: one strip for each line, or the whole
/// region if it is low or has fewer than two lines.
pub open spec fn strips(img: Gray) -> Seq<(int, int)> {
    let counts = profile(img);
    let lines = bands(counts, threshold(counts));
    if img.height() < LEAST_HEIGHT || lines.len() <= 1 {
        seq![(0, img.height() as int)]
    } else {
        Seq::new(lines.len(), |p: int| widened(lines[p], img.height() as int))
    }
}

/// `part` is the strip `rows` of `img`.
pub open spec fn is_strip(part: Gray, offset: u32, img: Gray, rows: (int, int)) -> bool {
    &&& part.wf()
    &&& offset == rows.0
    &&& part.width() == img.width()
    &&& part.height() == rows.1 - rows.0
    &&& part.pixels() == gray::crop(
        img.pixels(),
        img.width() as int,
        0,
        rows.0,
        img.width() as int,
        rows.1 - rows.0,
    )
}

fn count_dark(img: &Gray) -> (counts: Vec<u32>)
    requires
        img.wf(),
    ensures
        counts.len() == img.height(),
        forall|y: int| 0 <= y < counts.len() ==> #[trigger] counts[y] == profile(*img)[y],
{
    let w = img.columns();
    let h = img.rows();
    let mut counts: Vec<u32> = Vec::new();
    let mut y: u32 = 0;
    while y < h
        invariant
            img.wf(),
            w == img.width(),
            h == img.height(),
            y <= h,
            counts.len() == y,
            forall|r: int| 0 <= r < y ==> #[trigger] counts[r] == profile(*img)[r],
        decreases h - y,
    {
        let mut count: u32 = 0;
        let mut x: u32 = 0;
        while x < w
            invariant
                img.wf(),
                w == img.width(),
                h == img.height(),
                y < h,
                x <= w,
                count <= x,
                count == dark_pixels(*img, y as int, x as int),
            decreases w - x,
        {
            if img.pixel(x, y) < DARK {
                count = count + 1;
            }
            x = x + 1;
        }
        counts.push(count);
        y = y + 1;
    }
    counts
}

fn find_bands(counts: &Vec<u32>, limit: u32, model: Ghost<Seq<nat>>) -> (lines: Vec<(usize, usize)>)
    requires
        counts.len() == model@.len(),
        forall|y: int| 0 <= y < counts.len() ==> #[trigger] counts[y] == model@[y],
    ensures
        lines.len() == bands(model@, limit as nat).len(),
        forall|p: int|
            0 <= p < lines.len() ==> (#[trigger] lines[p].0) as int == bands(model@, limit as nat)[p].0 && lines[p].1 as int
                == bands(model@, limit as nat)[p].1 && lines[p].0 < lines[p].1 <= counts.len(),
{
    let mut lines: Vec<(usize, usize)> = Vec::new();
    let mut open: Option<usize> = None;
    let mut k: usize = 0;
    while k < counts.len()
        invariant
            k <= counts.len(),
            counts.len() == model@.len(),
            forall|y: int| 0 <= y < counts.len() ==> #[trigger] counts[y] == model@[y],
            lines.len() == bands_within(model@, limit as nat, k as int).0.len(),
            forall|p: int|
                0 <= p < lines.len() ==> (#[trigger] lines[p].0) as int == bands_within(model@, limit as nat, k as int).0[p].0
                    && lines[p].1 as int == bands_within(model@, limit as nat, k as int).0[p].1 && lines[p].0 < lines[p].1
                    <= counts.len(),
            match open {
                Some(start) => start < k && bands_within(model@, limit as nat, k as int).1 == Some(start as int),
                None => bands_within(model@, limit as nat, k as int).1 is None,
            },
        decreases counts.len() - k,
    {
        let above = counts[k] > limit;
        match open {
            None => {
                if above {
                    open = Some(k);
                }
            },
            Some(start) => {
                if !above {
                    if k - start >= LEAST_BAND {
                        lines.push((start, k));
                    }
                    open = None;
                }
            },
        }
        k = k + 1;
    }
    match open {
        Some(start) => {
            if counts.len() - start >= LEAST_BAND {
                lines.push((start, counts.len()));
            }
        },
        None => {},
    }
    lines
}

/// Cuts a region into its lines of text; each with the row where it begins.
pub fn split_multiline_region(img: &Gray) -> (parts: Vec<(Gray, u32)>)
    requires
        img.wf(),
    ensures
        parts.len() == strips(*img).len(),
        forall|p: int| 0 <= p < parts.len() ==> is_strip((#[trigger] parts[p]).0, parts[p].1, *img, strips(*img)[p]),
{
    let w = img.columns();
    let h = img.rows();
    let mut parts: Vec<(Gray, u32)> = Vec::new();
    let ghost counts_model = profile(*img);
    if h < LEAST_HEIGHT {
        parts.push((img.part(0, 0, w, h), 0));
        return parts;
    }
    let counts = count_dark(img);
    let mut most: u32 = 0;
    let mut y: usize = 0;
    while y < counts.len()
        invariant
            y <= counts.len(),
            counts.len() == counts_model.len(),
            forall|r: int| 0 <= r < counts.len() ==> #[trigger] counts[r] == counts_model[r],
            most == peak(counts_model, y as int),
        decreases counts.len() - y,
    {
        if counts[y] > most {
            most = counts[y];
        }
        y = y + 1;
    }
    let tenth: u32 = most / 10;
    let limit: u32 = if tenth < 1 {
        1
    } else {
        tenth
    };
    let lines = find_bands(&counts, limit, Ghost(counts_model));
    assert(limit == threshold(counts_model));
    if lines.len() <= 1 {
        parts.push((img.part(0, 0, w, h), 0));
        return parts;
    }
    let mut p: usize = 0;
    while p < lines.len()
        invariant
            img.wf(),
            w == img.width(),
            h == img.height(),
            h >= LEAST_HEIGHT,
            p <= lines.len(),
            parts.len() == p,
            lines.len() == strips(*img).len(),
            forall|q: int|
                0 <= q < lines.len() ==> (#[trigger] lines[q]).0 < lines[q].1 <= h && strips(*img)[q] == widened(
                    (lines[q].0 as int, lines[q].1 as int),
                    h as int,
                ),
            forall|q: int| 0 <= q < p ==> is_strip((#[trigger] parts[q]).0, parts[q].1, *img, strips(*img)[q]),
        decreases lines.len() - p,
    {
        let (start, end) = lines[p];
        assert(lines[p as int].0 < lines[p as int].1 <= h);
        let top: usize = if start < MARGIN {
            0
        } else {
            start - MARGIN
        };
        let bottom: usize = if end > h as usize - MARGIN {
            h as usize
        } else {
            end + MARGIN
        };
        let top: u32 = top as u32;
        let bottom: u32 = bottom as u32;
        parts.push((img.part(0, top, w, bottom - top), top));
        p = p + 1;
    }
    parts
}

proof fn lemma_bands_within(counts: Seq<nat>, limit: nat, k: int)
    requires
        0 <= k <= counts.len(),
    ensures
        ({
            let (found, open) = bands_within(counts, limit, k);
            &&& forall|p: int|
                0 <= p < found.len() ==> 0 <= (#[trigger] found[p]).0 && found[p].1 - found[p].0 >= LEAST_BAND && found[p].1
                    < k && counts[found[p].1] <= limit
            &&& forall|p: int, y: int|
                #![trigger found[p], counts[y]]
                0 <= p < found.len() && found[p].0 <= y < found[p].1 ==> counts[y] > limit
            &&& forall|p: int, q: int| 0 <= p < q < found.len() ==> (#[trigger] found[p]).1 < (#[trigger] found[q]).0
            &&& open matches Some(start) ==> {
                &&& 0 <= start < k
                &&& forall|y: int| start <= y < k ==> #[trigger] counts[y] > limit
                &&& forall|p: int| 0 <= p < found.len() ==> (#[trigger] found[p]).1 < start
            }
        }),
    decreases k,
{
    if k > 0 {
        lemma_bands_within(counts, limit, k - 1);
    }
}

/// Bands are of some height, all their rows are above the limit, and they come
/// from top to bottom with at least one row between two of them.
pub proof fn law_bands_are_lines(counts: Seq<nat>, limit: nat)
    ensures
        forall|p: int|
            0 <= p < bands(counts, limit).len() ==> {
                let band = #[trigger] bands(counts, limit)[p];
                0 <= band.0 && band.1 - band.0 >= LEAST_BAND && band.1 <= counts.len()
            },
        forall|p: int, y: int|
            #![trigger bands(counts, limit)[p], counts[y]]
            0 <= p < bands(counts, limit).len() && bands(counts, limit)[p].0 <= y < bands(counts, limit)[p].1
                ==> counts[y] > limit,
        forall|p: int, q: int|
            0 <= p < q < bands(counts, limit).len() ==> (#[trigger] bands(counts, limit)[p]).1 < (#[trigger] bands(
                counts,
                limit,
            )[q]).0,
{
    lemma_bands_within(counts, limit, counts.len() as int);
}

/// Every run of rows above the limit that is tall enough and cannot be made
/// longer is a band.
pub proof fn law_tall_runs_are_bands(counts: Seq<nat>, limit: nat, a: int, b: int)
    requires
        0 <= a,
        b <= counts.len(),
        b - a >= LEAST_BAND,
        forall|y: int| a <= y < b ==> #[trigger] counts[y] > limit,
        a == 0 || counts[a - 1] <= limit,
        b == counts.len() || counts[b] <= limit,
    ensures
        bands(counts, limit).contains((a, b)),
{
    lemma_run_found(counts, limit, a, b, counts.len() as int);
    let (found, open) = bands_within(counts, limit, counts.len() as int);
    if b == counts.len() {
        let all = bands(counts, limit);
        assert(all[all.len() - 1] == (a, b));
    } else {
        let p = choose|p: int| 0 <= p < found.len() && found[p] == (a, b);
        assert(bands(counts, limit)[p] == (a, b));
    }
}

proof fn lemma_run_found(counts: Seq<nat>, limit: nat, a: int, b: int, k: int)
    requires
        0 <= a,
        b <= counts.len(),
        b - a >= LEAST_BAND,
        forall|y: int| a <= y < b ==> #[trigger] counts[y] > limit,
        a == 0 || counts[a - 1] <= limit,
        b == counts.len() || counts[b] <= limit,
        a <= k <= counts.len(),
    ensures
        k == a ==> bands_within(counts, limit, k).1 is None,
        a < k <= b ==> bands_within(counts, limit, k).1 == Some(a),
        b < k ==> bands_within(counts, limit, k).0.contains((a, b)),
    decreases k,
{
    if k > a {
        lemma_run_found(counts, limit, a, b, k - 1);
        let (found, open) = bands_within(counts, limit, k - 1);
        let (after, _) = bands_within(counts, limit, k);
        if k - 1 < b {
            assert(counts[k - 1] > limit);
        } else if k - 1 == b {
            assert(after[after.len() - 1] == (a, b));
        } else {
            let p = choose|p: int| 0 <= p < found.len() && found[p] == (a, b);
            assert(after[p] == (a, b));
        }
    } else if a > 0 {
        assert(counts[a - 1] <= limit);
    }
}

/// How many pixels of row `y` are darker than 200.
pub open spec fn darkness(img: Gray, y: int) -> nat {
    Set::new(|x: int| 0 <= x < img.width() && img.at(x, y) < 200).len()
}

/// A row of text: it has more than one dark pixel, and more than a tenth of the
/// dark pixels that any row has.
pub open spec fn is_text_row(img: Gray, y: int) -> bool {
    &&& darkness(img, y) > 1
    &&& forall|z: int| 0 <= z < img.height() ==> 10 * darkness(img, y) > #[trigger] darkness(img, z)
}

/// The rows from `a` up to `b` are a line: at least ten rows of text, and no more
/// above or below them.
pub open spec fn is_line_of_rows(img: Gray, a: int, b: int) -> bool {
    &&& 0 <= a
    &&& a + 10 <= b <= img.height()
    &&& forall|y: int| a <= y < b ==> #[trigger] is_text_row(img, y)
    &&& a > 0 ==> !is_text_row(img, a - 1)
    &&& b < img.height() ==> !is_text_row(img, b)
}

/// The rows from `a` up to `b` with two more above and below, as far as there are
/// any.
pub open spec fn with_two_rows(img: Gray, a: int, b: int) -> (int, int) {
    (
        if a < 2 {
            0
        } else {
            a - 2
        },
        if b + 2 > img.height() {
            img.height() as int
        } else {
            b + 2
        },
    )
}

proof fn lemma_darkness(img: Gray, y: int, x: int)
    requires
        0 <= x <= img.width(),
    ensures
        Set::new(|i: int| 0 <= i < x && img.at(i, y) < 200).finite(),
        Set::new(|i: int| 0 <= i < x && img.at(i, y) < 200).len() == dark_pixels(img, y, x),
    decreases x,
{
    let all = Set::new(|i: int| 0 <= i < x && img.at(i, y) < 200);
    if x <= 0 {
        assert(all =~= Set::empty());
    } else {
        lemma_darkness(img, y, x - 1);
        let fewer = Set::new(|i: int| 0 <= i < x - 1 && img.at(i, y) < 200);
        if img.at(x - 1, y) < 200 {
            assert(all =~= fewer.insert(x - 1));
        } else {
            assert(all =~= fewer);
        }
    }
}

proof fn lemma_peak(counts: Seq<nat>, k: int)
    requires
        0 <= k <= counts.len(),
    ensures
        forall|z: int| 0 <= z < k ==> #[trigger] counts[z] <= peak(counts, k),
        k > 0 ==> exists|z: int| 0 <= z < k && #[trigger] counts[z] == peak(counts, k),
    decreases k,
{
    if k > 0 {
        lemma_peak(counts, k - 1);
        if k == 1 {
            assert(counts[0] == peak(counts, 1));
        } else {
            let z = choose|z: int| 0 <= z < k - 1 && #[trigger] counts[z] == peak(counts, k - 1);
            assert(counts[z] == peak(counts, k) || counts[k - 1] == peak(counts, k));
        }
    }
}

proof fn lemma_text_row(img: Gray, y: int)
    requires
        0 <= y < img.height(),
    ensures
        is_text_row(img, y) <==> profile(img)[y] > threshold(profile(img)),
{
    let counts = profile(img);
    assert forall|z: int| 0 <= z < img.height() implies #[trigger] darkness(img, z) == counts[z] by {
        lemma_darkness(img, z, img.width() as int);
    }
    lemma_peak(counts, counts.len() as int);
    let z = choose|z: int| 0 <= z < counts.len() && #[trigger] counts[z] == peak(counts, counts.len() as int);
    assert(darkness(img, z) == counts[z]);
    assert(darkness(img, y) == counts[y]);
    if counts[y] > threshold(counts) {
        assert forall|w: int| 0 <= w < img.height() implies 10 * darkness(img, y) > #[trigger] darkness(img, w) by {
            assert(counts[w] <= counts[z]);
        }
    }
}

proof fn lemma_band_is_line(img: Gray, p: int)
    requires
        0 <= p < bands(profile(img), threshold(profile(img))).len(),
    ensures
        ({
            let band = bands(profile(img), threshold(profile(img)))[p];
            is_line_of_rows(img, band.0, band.1)
        }),
{
    let counts = profile(img);
    let limit = threshold(counts);
    let all = bands(counts, limit);
    let (a, b) = all[p];
    law_bands_are_lines(counts, limit);
    lemma_bands_are_whole(counts, limit, counts.len() as int);
    assert(0 <= all[p].0);
    assert forall|y: int| a <= y < b implies #[trigger] is_text_row(img, y) by {
        lemma_text_row(img, y);
        assert(counts[y] > limit);
    }
    if a > 0 {
        lemma_text_row(img, a - 1);
    }
    if b < img.height() {
        lemma_text_row(img, b);
    }
}

proof fn lemma_bands_are_whole(counts: Seq<nat>, limit: nat, k: int)
    requires
        0 <= k <= counts.len(),
    ensures
        ({
            let (found, open) = bands_within(counts, limit, k);
            &&& forall|p: int|
                0 <= p < found.len() ==> found[p].1 < k && counts[(#[trigger] found[p]).1] <= limit && (found[p].0 > 0
                    ==> counts[found[p].0 - 1] <= limit)
            &&& open matches Some(start) ==> 0 <= start < k && (start > 0 ==> counts[start - 1] <= limit)
            &&& open is None && k > 0 ==> counts[k - 1] <= limit
        }),
    decreases k,
{
    if k > 0 {
        lemma_bands_are_whole(counts, limit, k - 1);
    }
}

/// A region is cut into its lines of text. A low region, and one with fewer than
/// two lines, is left whole. Otherwise each line, and nothing else, is a strip,
/// with two more rows above and below, and the strips come from top to bottom.
pub proof fn law_lines_are_cut_out(img: Gray)
    ensures
        img.height() < 30 ==> strips(img) == seq![(0int, img.height() as int)],
        (forall|a: int, b: int, c: int, d: int|
            !(b <= c && #[trigger] is_line_of_rows(img, a, b) && #[trigger] is_line_of_rows(img, c, d))) ==> strips(img)
            == seq![(0int, img.height() as int)],
        forall|a: int, b: int, c: int, d: int|
            img.height() >= 30 && b <= c && #[trigger] is_line_of_rows(img, a, b) && #[trigger] is_line_of_rows(
                img,
                c,
                d,
            ) ==> {
                &&& strips(img).contains(with_two_rows(img, a, b))
                &&& strips(img).contains(with_two_rows(img, c, d))
            },
        strips(img).len() > 1 ==> forall|p: int|
            0 <= p < strips(img).len() ==> exists|a: int, b: int| #[trigger]
                is_line_of_rows(img, a, b) && (#[trigger] strips(img)[p]) == with_two_rows(img, a, b),
        forall|p: int, q: int|
            0 <= p < q < strips(img).len() ==> (#[trigger] strips(img)[p]).0 < (#[trigger] strips(img)[q]).0
                && strips(img)[p].1 < strips(img)[q].1,
{
    let counts = profile(img);
    let limit = threshold(counts);
    let all = bands(counts, limit);
    law_bands_are_lines(counts, limit);
    assert forall|a: int, b: int| #[trigger] is_line_of_rows(img, a, b) implies all.contains((a, b)) by {
        assert forall|y: int| a <= y < b implies #[trigger] counts[y] > limit by {
            assert(is_text_row(img, y));
            lemma_text_row(img, y);
        }
        if a > 0 {
            lemma_text_row(img, a - 1);
        }
        if b < img.height() {
            lemma_text_row(img, b);
        }
        law_tall_runs_are_bands(counts, limit, a, b);
    }
    if all.len() > 1 {
        lemma_band_is_line(img, 0);
        lemma_band_is_line(img, 1);
        assert(is_line_of_rows(img, all[0].0, all[0].1) && is_line_of_rows(img, all[1].0, all[1].1));
        assert(all[0].1 < all[1].0);
    }
    assert forall|a: int, b: int, c: int, d: int|
        img.height() >= 30 && b <= c && #[trigger] is_line_of_rows(img, a, b) && #[trigger] is_line_of_rows(img, c, d) implies {
        &&& strips(img).contains(with_two_rows(img, a, b))
        &&& strips(img).contains(with_two_rows(img, c, d))
    } by {
        assert(all.contains((a, b)) && all.contains((c, d)));
        let p = choose|p: int| 0 <= p < all.len() && all[p] == (a, b);
        let q = choose|q: int| 0 <= q < all.len() && all[q] == (c, d);
        assert(p != q);
        assert(strips(img)[p] == with_two_rows(img, a, b));
        assert(strips(img)[q] == with_two_rows(img, c, d));
    }
    if strips(img).len() > 1 {
        assert forall|p: int| 0 <= p < strips(img).len() implies exists|a: int, b: int| #[trigger]
            is_line_of_rows(img, a, b) && (#[trigger] strips(img)[p]) == with_two_rows(img, a, b) by {
            lemma_band_is_line(img, p);
            assert(is_line_of_rows(img, all[p].0, all[p].1) && strips(img)[p] == with_two_rows(
                img,
                all[p].0,
                all[p].1,
            ));
        }
        assert forall|p: int, q: int| 0 <= p < q < strips(img).len() implies (#[trigger] strips(img)[p]).0 < (
        #[trigger] strips(img)[q]).0 && strips(img)[p].1 < strips(img)[q].1 by {
            assert(all[p].1 < all[q].0);
            assert(all[p].1 - all[p].0 >= 10 && all[q].1 - all[q].0 >= 10);
        }
    }
}

/// A part that is cut out shows the region's rows from its offset on.
pub proof fn law_parts_show_their_rows(part: Gray, offset: u32, img: Gray, rows: (int, int), x: int, y: int)
    requires
        is_strip(part, offset, img, rows),
        0 <= x < img.width(),
        0 <= y < part.height(),
    ensures
        part.at(x, y) == img.at(x, y + offset),
{
    gray::lemma_index(part.width(), part.height(), x, y);
}

} // verus!
