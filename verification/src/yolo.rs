//! Conversion of corner-form boxes to normalized center form.
//!
//! The center form is held exactly, as rationals over twice the image
//! dimensions, so converting back reproduces every corner with no loss.
//! Only rendering rounds, to the nearest micro unit for the six-decimal
//! lines. A degenerate or inverted box converts like any other; nothing
//! clips to `[0, 1]`.

use vstd::prelude::*;
use vstd::arithmetic::div_mod::{lemma_fundamental_div_mod, lemma_mod_bound};
use crate::model::{ImageView, UnifiedAnnotation, UnifiedImage, YoloAnnotation};
use crate::num::{dec_digits, format_micro, round_div, spec_format_micro, spec_round_div, u64_to_string};

verus! {

/// The largest magnitude a center-form numerator can take here.
pub const MAX_CENTER_MICRO: i64 = 72_000_000_000_000_000;

/// The center-form record of one annotation on an image of the given size:
/// `x_center = (x1 + x2) / (2 w)` and `width = (x2 - x1) / w`, kept as
/// numerators over the common denominator `2 w` (and likewise for y).
pub open spec fn spec_from_unified(ann: UnifiedAnnotation, img_width: u32, img_height: u32)
    -> YoloAnnotation
    recommends
        img_width >= 1,
        img_height >= 1,
{
    YoloAnnotation {
        class_id: ann.category_id,
        x_center_num: (ann.bbox.x1 + ann.bbox.x2) as i64,
        y_center_num: (ann.bbox.y1 + ann.bbox.y2) as i64,
        width_num: (2 * (ann.bbox.x2 - ann.bbox.x1)) as i64,
        height_num: (2 * (ann.bbox.y2 - ann.bbox.y1)) as i64,
        denom_x: (2 * img_width) as i64,
        denom_y: (2 * img_height) as i64,
    }
}

/// Rounding to the nearest multiple of `d` moves a value by at most `d / 2`.
pub proof fn lemma_round_div_close(n: int, d: int)
    requires
        d >= 1,
    ensures
        -(d / 2) <= spec_round_div(n, d) * d - n <= d / 2,
{
    if n >= 0 {
        let q = (n + d / 2) / d;
        lemma_fundamental_div_mod(n + d / 2, d);
        lemma_mod_bound(n + d / 2, d);
        assert(q * d == d * q) by (nonlinear_arith);
    } else {
        let m = -n;
        let q = (m + d / 2) / d;
        lemma_fundamental_div_mod(m + d / 2, d);
        lemma_mod_bound(m + d / 2, d);
        assert(spec_round_div(n, d) == -q);
        assert((-q) * d == -(d * q)) by (nonlinear_arith);
    }
}

impl YoloAnnotation {
    /// Re-expresses one annotation in normalized center form, exactly.
    pub fn from_unified(ann: &UnifiedAnnotation, img_width: u32, img_height: u32) -> (y:
        YoloAnnotation)
        requires
            ann.wf(),
            img_width >= 1,
            img_height >= 1,
        ensures
            y == spec_from_unified(*ann, img_width, img_height),
            y.wf(),
    {
        YoloAnnotation {
            class_id: ann.category_id,
            x_center_num: ann.bbox.x1 + ann.bbox.x2,
            y_center_num: ann.bbox.y1 + ann.bbox.y2,
            width_num: 2 * (ann.bbox.x2 - ann.bbox.x1),
            height_num: 2 * (ann.bbox.y2 - ann.bbox.y1),
            denom_x: 2 * (img_width as i64),
            denom_y: 2 * (img_height as i64),
        }
    }
}

/// A rounded quotient is no larger in magnitude than what was divided, so a
/// rendered micro value stays within machine range.
pub proof fn lemma_round_div_bounded(n: int, d: int)
    requires
        1 <= d,
        -MAX_CENTER_MICRO <= n <= MAX_CENTER_MICRO,
    ensures
        -MAX_CENTER_MICRO <= spec_round_div(n, d) <= MAX_CENTER_MICRO,
{
    lemma_round_div_close(n, d);
    let q = spec_round_div(n, d);
    let m: int = MAX_CENTER_MICRO as int;
    assert(q * d - n <= d / 2 && -(d / 2) <= q * d - n);
    if q > m {
        assert(q * d >= (m + 1) * d) by (nonlinear_arith)
            requires
                q >= m + 1,
                d >= 1,
        ;
        assert((m + 1) * d == m * d + d) by (nonlinear_arith);
        assert(m * d >= m) by (nonlinear_arith)
            requires
                m >= 0,
                d >= 1,
        ;
        assert(false);
    }
    if q < -m {
        assert(q * d <= (-m - 1) * d) by (nonlinear_arith)
            requires
                q <= -m - 1,
                d >= 1,
        ;
        assert((-m - 1) * d == -(m * d) - d) by (nonlinear_arith);
        assert(m * d >= m) by (nonlinear_arith)
            requires
                m >= 0,
                d >= 1,
        ;
        assert(false);
    }
}

/// One label line: the class id and the four fractions, each rounded to the
/// nearest micro unit and written with six decimals, separated by single
/// spaces.
pub open spec fn spec_yolo_line(y: YoloAnnotation) -> Seq<char> {
    dec_digits(y.class_id as nat) + seq![' '] + spec_format_micro(
        spec_round_div(y.x_center_num as int, y.denom_x as int),
    ) + seq![' '] + spec_format_micro(spec_round_div(y.y_center_num as int, y.denom_y as int))
        + seq![' '] + spec_format_micro(spec_round_div(y.width_num as int, y.denom_x as int))
        + seq![' '] + spec_format_micro(spec_round_div(y.height_num as int, y.denom_y as int))
}

impl YoloAnnotation {
    /// Renders this record as one label-file line.
    pub fn to_string(&self) -> (s: String)
        requires
            self.wf(),
        ensures
            s@ == spec_yolo_line(*self),
    {
        proof {
            reveal_strlit(" ");
            lemma_round_div_bounded(self.x_center_num as int, self.denom_x as int);
            lemma_round_div_bounded(self.y_center_num as int, self.denom_y as int);
            lemma_round_div_bounded(self.width_num as int, self.denom_x as int);
            lemma_round_div_bounded(self.height_num as int, self.denom_y as int);
        }
        let mut s = u64_to_string(self.class_id as u64);
        s.append(" ");
        let xc = format_micro(round_div(self.x_center_num, self.denom_x));
        s.append(xc.as_str());
        s.append(" ");
        let yc = format_micro(round_div(self.y_center_num, self.denom_y));
        s.append(yc.as_str());
        s.append(" ");
        let w = format_micro(round_div(self.width_num, self.denom_x));
        s.append(w.as_str());
        s.append(" ");
        let h = format_micro(round_div(self.height_num, self.denom_y));
        s.append(h.as_str());
        proof {
            assert(s@ =~= spec_yolo_line(*self));
        }
        s
    }
}

/// The label lines of a sequence of annotations, each line ending in a
/// newline, in annotation order.
pub open spec fn spec_label_lines(anns: Seq<UnifiedAnnotation>, w: u32, h: u32) -> Seq<char>
    decreases anns.len(),
{
    if anns.len() == 0 {
        Seq::empty()
    } else {
        spec_label_lines(anns.drop_last(), w, h) + spec_yolo_line(
            spec_from_unified(anns.last(), w, h),
        ) + seq!['\n']
    }
}

/// The full text of one image's label file: its annotations converted and
/// rendered in order, one per line; empty when it has none.
pub open spec fn spec_label_content(img: ImageView) -> Seq<char> {
    spec_label_lines(img.annotations, img.width, img.height)
}

/// Renders the label file for one image.
pub fn label_file_content(image: &UnifiedImage) -> (s: String)
    requires
        image@.wf(),
    ensures
        s@ == spec_label_content(image@),
{
    let mut s = String::new();
    let n = image.annotations.len();
    let mut t: usize = 0;
    proof {
        assert(image@.annotations.take(0) =~= Seq::<UnifiedAnnotation>::empty());
    }
    while t < n
        invariant
            image@.wf(),
            n == image@.annotations.len(),
            t <= n,
            s@ == spec_label_lines(image@.annotations.take(t as int), image@.width, image@.height),
        decreases n - t,
    {
        proof {
            assert(image@.annotations.take(t as int + 1).drop_last() =~= image@.annotations.take(
                t as int,
            ));
            assert(image@.annotations.take(t as int + 1).last() == image@.annotations[t as int]);
        }
        let y = YoloAnnotation::from_unified(&image.annotations[t], image.width, image.height);
        let line = y.to_string();
        s.append(line.as_str());
        proof {
            reveal_strlit("\n");
        }
        s.append("\n");
        proof {
            assert(s@ =~= spec_label_lines(
                image@.annotations.take(t as int + 1),
                image@.width,
                image@.height,
            ));
        }
        t += 1;
    }
    proof {
        assert(image@.annotations.take(n as int) =~= image@.annotations);
    }
    s
}

/// Law: converting a box to center form and back reproduces every corner
/// exactly. Reading the corners off as `x1 = (x_center - width / 2) * w`
/// and `x2 = (x_center + width / 2) * w` — here scaled by `2 w` to stay in
/// micro-unit integers — gives back precisely the values converted from.
pub proof fn lemma_center_form_round_trip(ann: UnifiedAnnotation, w: u32, h: u32)
    requires
        ann.wf(),
        w >= 1,
        h >= 1,
    ensures
        ({
            let y = spec_from_unified(ann, w, h);
            &&& y.x_center_num - y.width_num / 2 == 2 * ann.bbox.x1
            &&& y.x_center_num + y.width_num / 2 == 2 * ann.bbox.x2
            &&& y.y_center_num - y.height_num / 2 == 2 * ann.bbox.y1
            &&& y.y_center_num + y.height_num / 2 == 2 * ann.bbox.y2
        }),
{
}

} // verus!
