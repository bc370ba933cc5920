//! The lines that were recognized in an image so far.

use vstd::prelude::*;

use crate::measure::Measure;
use crate::ordering::Ordinal;
use crate::region;
use crate::region::LineBox;
use crate::rules::Overlap;
use crate::text;

verus! {

/// What a model read: the text and the confidence.
pub struct Reading {
    pub text: String,
    pub conf: Measure,
}

/// The recognized lines: text, place and confidence of each.
pub struct Session {
    pub texts: Vec<String>,
    pub lines: Vec<LineBox>,
    pub confs: Vec<Measure>,
}

/// The reading that counts: that of the universal model where it is preferred.
pub open spec fn preferred(cjk: Reading, und: Option<Reading>) -> (Seq<char>, Measure) {
    match und {
        Some(u) => if text::universal_preferred(cjk.text@, u.text@, cjk.conf, u.conf) {
            (u.text@, u.conf)
        } else {
            (cjk.text@, cjk.conf)
        },
        None => (cjk.text@, cjk.conf),
    }
}

impl Session {
    /// Each line has a text, a place and a confidence.
    pub open spec fn wf(&self) -> bool {
        self.texts.len() == self.lines.len() && self.confs.len() == self.lines.len()
    }

    /// Nothing is recognized yet.
    pub fn new() -> (session: Session)
        ensures
            session.wf(),
            session.lines@ == Seq::<LineBox>::empty(),
    {
        Session { texts: Vec::new(), lines: Vec::new(), confs: Vec::new() }
    }

    /// Tells whether a region is to be read: it is, unless it repeats a recognized
    /// line.
    pub fn wants<F: Fn(&LineBox, &LineBox) -> Overlap>(&self, place: &LineBox, measurer: F) -> (yes: bool)
        requires
            region::line_overlap_callable(measurer),
        ensures
            forall|overlap: spec_fn(LineBox, LineBox) -> Overlap| #[trigger]
                region::measures_lines(measurer, overlap) ==> yes == !region::is_known(self.lines@, *place, overlap),
    {
        !region::is_duplicate(&self.lines, place, measurer)
    }

    /// Records what was read at a place, if it is text.
    pub fn record(&mut self, place: LineBox, cjk: &Reading, und: &Option<Reading>, least: Measure) -> (kept: bool)
        requires
            old(self).wf(),
        ensures
            final(self).wf(),
            match text::accepted(preferred(*cjk, *und).0, preferred(*cjk, *und).1, least) {
                Some(line) => {
                    &&& kept
                    &&& final(self).lines@ == old(self).lines@.push(place)
                    &&& final(self).confs@ == old(self).confs@.push(preferred(*cjk, *und).1)
                    &&& final(self).texts@.drop_last() == old(self).texts@
                    &&& final(self).texts@.last()@ == line
                },
                None => {
                    &&& !kept
                    &&& *final(self) == *old(self)
                },
            },
    {
        let chosen = match und {
            Some(u) => if text::prefers_universal(cjk.text.as_str(), u.text.as_str(), cjk.conf, u.conf) {
                u
            } else {
                cjk
            },
            None => cjk,
        };
        match text::accept_reading(chosen.text.as_str(), chosen.conf, least) {
            Some(line) => {
                self.texts.push(line);
                self.lines.push(place);
                self.confs.push(chosen.conf);
                assert(self.texts@.drop_last() =~= old(self).texts@);
                true
            },
            None => false,
        }
    }

    /// The texts of the recognized lines, without those that a line with a better
    /// score overlaps.
    pub fn finish<F: Fn(&LineBox, &LineBox) -> Overlap>(self, scores: &Vec<Ordinal>, measurer: F) -> (texts: Vec<String>)
        requires
            self.wf(),
            scores.len() == self.lines.len(),
            region::line_overlap_callable(measurer),
        ensures
            forall|overlap: spec_fn(LineBox, LineBox) -> Overlap| #[trigger]
                region::measures_lines(measurer, overlap) ==> texts@ == region::undisputed(
                    self.texts@,
                    self.lines@,
                    scores@,
                    overlap,
                ),
    {
        region::remove_overlaps(self.texts, &self.lines, scores, measurer)
    }
}

/// The reading that counts is one of the two as a whole, text and confidence; that
/// of the CJK model where there is no other, and the more confident one where that
/// is the universal model's and not empty.
pub proof fn law_one_reading_counts(cjk: Reading, und: Reading)
    ensures
        preferred(cjk, None) == (cjk.text@, cjk.conf),
        preferred(cjk, Some(und)) == (cjk.text@, cjk.conf) || preferred(cjk, Some(und)) == (und.text@, und.conf),
        und.text@.len() == 0 ==> preferred(cjk, Some(und)) == (cjk.text@, cjk.conf),
        und.text@.len() > 0 && cjk.conf is Some && und.conf is Some && und.conf->0 > cjk.conf->0 ==> preferred(
            cjk,
            Some(und),
        ) == (und.text@, und.conf),
        und.text@.len() > 3 && !und.text@.contains(' ') && cjk.conf is Some && und.conf is Some && und.conf->0
            <= cjk.conf->0 ==> preferred(cjk, Some(und)) == (cjk.text@, cjk.conf),
{
}

} // verus!
