//! The conversion run: from decoded images to a plan of files to write.
//!
//! All decisions are made here — which split an image joins, where its label
//! file and copied image go, what each file holds, and what the class index
//! says. Carrying the outcome as a plan keeps the run's logic apart from the
//! file system that later performs it.

use vstd::prelude::*;
use crate::json::{json_bounded, json_view, spec_parse_json, JVal, Json};
use crate::model::{ConvertError, ImageView, ParseError, UnifiedAnnotation, UnifiedImage};
use crate::schema::{
    spec_damm_doc_images, spec_standard_doc_images, valid_damm_doc, valid_standard_doc,
};
use crate::num::dec_digits;
use crate::resolve::{find_image_file, spec_resolve};
use crate::split::{spec_train_count, split_images};
use crate::strutil::{base_name, spec_base_name, spec_stem, stem_of};
use crate::yolo::{label_file_content, spec_label_content};

verus! {

/// Which input schema the run decodes.
#[derive(Clone, Copy, Debug, PartialEq, Eq, Structural)]
pub enum Format {
    Standard,
    Damm,
}

/// Reads the format choice; anything but the two known names is refused.
pub fn format_of(s: &str) -> (r: Option<Format>)
    ensures
        r == Some(Format::Standard) <==> s@ == "standard"@,
        r == Some(Format::Damm) <==> s@ == "damm"@,
        r is None <==> (s@ != "standard"@ && s@ != "damm"@),
{
    proof {
        reveal_strlit("standard");
        reveal_strlit("damm");
        assert("standard"@.len() == 8);
        assert("damm"@.len() == 4);
    }
    if crate::strutil::str_eq(s, "standard") {
        Some(Format::Standard)
    } else if crate::strutil::str_eq(s, "damm") {
        Some(Format::Damm)
    } else {
        None
    }
}

/// An id list kept strictly ascending: `x` goes to its place, or nowhere if
/// already present.
pub open spec fn spec_insert_sorted(s: Seq<u32>, x: u32) -> Seq<u32>
    decreases s.len(),
{
    if s.len() == 0 {
        seq![x]
    } else if s.last() < x {
        s.push(x)
    } else if s.last() == x {
        s
    } else {
        spec_insert_sorted(s.drop_last(), x).push(s.last())
    }
}

pub open spec fn strictly_sorted(s: Seq<u32>) -> bool {
    forall|i: int, j: int| 0 <= i < j < s.len() ==> s[i] < s[j]
}

/// Law: inserting into the id list keeps it strictly ascending, and its
/// members become exactly the old members plus the inserted id.
pub proof fn lemma_insert_sorted_props(s: Seq<u32>, x: u32)
    requires
        strictly_sorted(s),
    ensures
        strictly_sorted(spec_insert_sorted(s, x)),
        forall|e: u32| #[trigger] spec_insert_sorted(s, x).contains(e) <==> (s.contains(e) || e
            == x),
    decreases s.len(),
{
    let r = spec_insert_sorted(s, x);
    if s.len() == 0 {
        assert(r[0] == x);
        assert forall|e: u32| r.contains(e) implies (s.contains(e) || e == x) by {
            let i = choose|i: int| 0 <= i < r.len() && r[i] == e;
        }
    } else if s.last() < x {
        assert(r == s.push(x));
        assert forall|e: u32| r.contains(e) implies (s.contains(e) || e == x) by {
            let i = choose|i: int| 0 <= i < r.len() && r[i] == e;
            if i < s.len() {
                assert(s[i] == e);
            }
        }
        assert forall|e: u32| (s.contains(e) || e == x) implies r.contains(e) by {
            if s.contains(e) {
                let i = choose|i: int| 0 <= i < s.len() && s[i] == e;
                assert(r[i] == e);
            } else {
                assert(r[s.len() as int] == e);
            }
        }
        assert forall|i: int, j: int| 0 <= i < j < r.len() implies r[i] < r[j] by {
            if j == s.len() {
                if i < s.len() - 1 {
                    assert(s[i] < s.last());
                }
            }
        }
    } else if s.last() == x {
        assert forall|e: u32| (s.contains(e) || e == x) implies r.contains(e) by {
            if e == x {
                assert(s[s.len() - 1] == e);
            }
        }
    } else {
        lemma_insert_sorted_props(s.drop_last(), x);
        let inner = spec_insert_sorted(s.drop_last(), x);
        assert(r == inner.push(s.last()));
        assert forall|e: u32| r.contains(e) implies (s.contains(e) || e == x) by {
            let i = choose|i: int| 0 <= i < r.len() && r[i] == e;
            if i < inner.len() {
                assert(inner[i] == e);
                assert(inner.contains(e));
                if s.drop_last().contains(e) {
                    let j = choose|j: int| 0 <= j < s.drop_last().len() && s.drop_last()[j] == e;
                    assert(s[j] == e);
                }
            } else {
                assert(s[s.len() - 1] == e);
            }
        }
        assert forall|e: u32| (s.contains(e) || e == x) implies r.contains(e) by {
            if e == x {
                assert(inner.contains(e));
                let j = choose|j: int| 0 <= j < inner.len() && inner[j] == e;
                assert(r[j] == e);
            } else if s.contains(e) {
                let i = choose|i: int| 0 <= i < s.len() && s[i] == e;
                if i == s.len() - 1 {
                    assert(r[r.len() - 1] == e);
                } else {
                    assert(s.drop_last()[i] == e);
                    assert(s.drop_last().contains(e));
                    assert(inner.contains(e));
                    let j = choose|j: int| 0 <= j < inner.len() && inner[j] == e;
                    assert(r[j] == e);
                }
            }
        }
        assert forall|i: int, j: int| 0 <= i < j < r.len() implies r[i] < r[j] by {
            if j == r.len() - 1 {
                assert(inner[i] == r[i]);
                assert(inner.contains(r[i]));
                if s.drop_last().contains(r[i]) {
                    let t = choose|t: int|
                        0 <= t < s.drop_last().len() && s.drop_last()[t] == r[i];
                    assert(s[t] == r[i]);
                    assert(s[t] < s.last());
                }
            }
        }
    }
}

/// Inserts one id into the ascending id list.
fn insert_sorted_vec(v: Vec<u32>, x: u32) -> (r: Vec<u32>)
    ensures
        r@ == spec_insert_sorted(v@, x),
    decreases v@.len(),
{
    if v.len() == 0 {
        let mut r = v;
        r.push(x);
        proof {
            assert(r@ =~= seq![x]);
        }
        r
    } else {
        let last = v[v.len() - 1];
        if last < x {
            let mut r = v;
            r.push(x);
            r
        } else if last == x {
            v
        } else {
            let mut w = v;
            let l = match w.pop() {
                Some(l) => l,
                None => {
                    proof {
                        assert(false);
                    }
                    x
                },
            };
            let mut r = insert_sorted_vec(w, x);
            r.push(l);
            r
        }
    }
}

/// The id list after every category id of the annotations, in order, has
/// been inserted.
pub open spec fn spec_insert_ids(s: Seq<u32>, anns: Seq<UnifiedAnnotation>) -> Seq<u32>
    decreases anns.len(),
{
    if anns.len() == 0 {
        s
    } else {
        spec_insert_sorted(spec_insert_ids(s, anns.drop_last()), anns.last().category_id)
    }
}

/// Law: folding a batch of annotations in keeps the id list strictly
/// ascending, and its members become the old ones plus the batch's ids.
pub proof fn lemma_insert_ids_props(s: Seq<u32>, anns: Seq<UnifiedAnnotation>)
    requires
        strictly_sorted(s),
    ensures
        strictly_sorted(spec_insert_ids(s, anns)),
        forall|e: u32|
            #[trigger] spec_insert_ids(s, anns).contains(e) <==> (s.contains(e) || exists|i: int|
                0 <= i < anns.len() && (#[trigger] anns[i]).category_id == e),
    decreases anns.len(),
{
    if anns.len() > 0 {
        lemma_insert_ids_props(s, anns.drop_last());
        lemma_insert_sorted_props(spec_insert_ids(s, anns.drop_last()), anns.last().category_id);
        assert forall|e: u32|
            spec_insert_ids(s, anns).contains(e) implies (s.contains(e) || exists|i: int|
            0 <= i < anns.len() && (#[trigger] anns[i]).category_id == e) by {
            if !s.contains(e) {
                if e == anns.last().category_id {
                    assert(anns[anns.len() - 1].category_id == e);
                } else {
                    let i = choose|i: int|
                        0 <= i < anns.drop_last().len() && (#[trigger] anns.drop_last()[i]).category_id
                            == e;
                    assert(anns[i].category_id == e);
                }
            }
        }
        assert forall|e: u32|
            (s.contains(e) || exists|i: int|
                0 <= i < anns.len() && (#[trigger] anns[i]).category_id
                    == e) implies spec_insert_ids(s, anns).contains(e) by {
            if !s.contains(e) {
                let i = choose|i: int|
                    0 <= i < anns.len() && (#[trigger] anns[i]).category_id == e;
                if i < anns.len() - 1 {
                    assert(anns.drop_last()[i].category_id == e);
                }
            }
        }
    }
}

/// Folds the category ids of one image's annotations into the id list.
fn insert_ids_vec(v: Vec<u32>, anns: &Vec<UnifiedAnnotation>) -> (r: Vec<u32>)
    ensures
        r@ == spec_insert_ids(v@, anns@),
{
    let ghost v0 = v@;
    let n = anns.len();
    let mut r = v;
    let mut t: usize = 0;
    proof {
        assert(anns@.take(0) =~= Seq::<UnifiedAnnotation>::empty());
    }
    while t < n
        invariant
            n == anns@.len(),
            t <= n,
            r@ == spec_insert_ids(v0, anns@.take(t as int)),
        decreases n - t,
    {
        proof {
            assert(anns@.take(t as int + 1).drop_last() =~= anns@.take(t as int));
            assert(anns@.take(t as int + 1).last() == anns@[t as int]);
        }
        r = insert_sorted_vec(r, anns[t].category_id);
        t += 1;
    }
    proof {
        assert(anns@.take(n as int) =~= anns@);
    }
    r
}

/// The text of the class index: one synthesized name per id, in list order,
/// each line ending in a newline.
pub open spec fn spec_classes_text(ids: Seq<u32>) -> Seq<char>
    decreases ids.len(),
{
    if ids.len() == 0 {
        Seq::empty()
    } else {
        spec_classes_text(ids.drop_last()) + "class_"@ + dec_digits(ids.last() as nat) + seq!['\n']
    }
}

/// Renders the class index text.
fn classes_text(ids: &Vec<u32>) -> (s: String)
    ensures
        s@ == spec_classes_text(ids@),
{
    let mut s = String::new();
    let n = ids.len();
    let mut t: usize = 0;
    proof {
        assert(ids@.take(0) =~= Seq::<u32>::empty());
    }
    while t < n
        invariant
            n == ids@.len(),
            t <= n,
            s@ == spec_classes_text(ids@.take(t as int)),
        decreases n - t,
    {
        proof {
            assert(ids@.take(t as int + 1).drop_last() =~= ids@.take(t as int));
            assert(ids@.take(t as int + 1).last() == ids@[t as int]);
            reveal_strlit("class_");
            reveal_strlit("\n");
        }
        s.append("class_");
        let d = crate::num::u64_to_string(ids[t] as u64);
        s.append(d.as_str());
        s.append("\n");
        t += 1;
    }
    proof {
        assert(ids@.take(n as int) =~= ids@);
    }
    s
}

/// Copying one image file into the layout.
#[derive(Debug)]
pub struct CopyAction {
    pub source: String,
    pub dest: String,
}

/// Everything to be done for one image that was found.
#[derive(Debug)]
pub struct PlanEntry {
    pub label_path: String,
    pub label_content: String,
    pub is_train: bool,
    pub copy: Option<CopyAction>,
}

/// The outcome of a run: files to write and copy, names that resolved
/// nowhere, and the class index text if one is due.
#[derive(Debug)]
pub struct Plan {
    pub entries: Vec<PlanEntry>,
    pub missing: Vec<String>,
    pub classes_content: Option<String>,
    pub train_count: usize,
}

#[verifier::ext_equal]
pub struct EntryView {
    pub label_path: Seq<char>,
    pub label_content: Seq<char>,
    pub is_train: bool,
    pub copy: Option<(Seq<char>, Seq<char>)>,
}

#[verifier::ext_equal]
pub struct PlanView {
    pub entries: Seq<EntryView>,
    pub missing: Seq<Seq<char>>,
    pub classes_content: Option<Seq<char>>,
    pub train_count: nat,
}

impl View for PlanEntry {
    type V = EntryView;

    open spec fn view(&self) -> EntryView {
        EntryView {
            label_path: self.label_path@,
            label_content: self.label_content@,
            is_train: self.is_train,
            copy: match self.copy {
                Some(c) => Some((c.source@, c.dest@)),
                None => None,
            },
        }
    }
}

impl View for Plan {
    type V = PlanView;

    open spec fn view(&self) -> PlanView {
        PlanView {
            entries: self.entries@.map_values(|e: PlanEntry| e@),
            missing: self.missing@.map_values(|s: String| s@),
            classes_content: match self.classes_content {
                Some(c) => Some(c@),
                None => None,
            },
            train_count: self.train_count as nat,
        }
    }
}

/// The entry for a found image in the split layout.
pub open spec fn spec_yolo_entry(img: ImageView, is_train: bool, src: Seq<char>) -> EntryView {
    let base = spec_base_name(img.file_name);
    let images_dir = if is_train {
        "train/images/"@
    } else {
        "val/images/"@
    };
    let labels_dir = if is_train {
        "train/labels/"@
    } else {
        "val/labels/"@
    };
    EntryView {
        label_path: labels_dir + spec_stem(base) + ".txt"@,
        label_content: spec_label_content(img),
        is_train,
        copy: Some((src, images_dir + base)),
    }
}

/// The entry for an image in the flat layout: a label file beside the
/// output root, no copy.
pub open spec fn spec_flat_entry(img: ImageView) -> EntryView {
    EntryView {
        label_path: spec_stem(spec_base_name(img.file_name)) + ".txt"@,
        label_content: spec_label_content(img),
        is_train: false,
        copy: None,
    }
}

/// What a run has accumulated after some of the images.
#[verifier::ext_equal]
pub struct PlanAcc {
    pub entries: Seq<EntryView>,
    pub missing: Seq<Seq<char>>,
    pub ids: Seq<u32>,
}

/// One image's contribution. In the split layout an empty base name aborts
/// the run, an unresolved image is only counted, and class ids come from
/// found images alone; the flat layout takes every image as it is.
pub open spec fn spec_plan_step(
    acc: PlanAcc,
    img: ImageView,
    is_train: bool,
    files: Seq<Seq<char>>,
    yolo: bool,
) -> Result<PlanAcc, ConvertError> {
    let base = spec_base_name(img.file_name);
    if yolo {
        if base.len() == 0 {
            Err(ConvertError::InvalidFileName)
        } else {
            match spec_resolve(files, base) {
                None => Ok(
                    PlanAcc { entries: acc.entries, missing: acc.missing.push(base), ids: acc.ids },
                ),
                Some(src) => Ok(
                    PlanAcc {
                        entries: acc.entries.push(spec_yolo_entry(img, is_train, src)),
                        missing: acc.missing,
                        ids: spec_insert_ids(acc.ids, img.annotations),
                    },
                ),
            }
        }
    } else {
        Ok(
            PlanAcc {
                entries: acc.entries.push(spec_flat_entry(img)),
                missing: acc.missing,
                ids: spec_insert_ids(acc.ids, img.annotations),
            },
        )
    }
}

/// The run folded over the first `i` images, the first `k` of them training.
pub open spec fn spec_plan_fold(
    imgs: Seq<ImageView>,
    k: nat,
    files: Seq<Seq<char>>,
    yolo: bool,
    i: nat,
) -> Result<PlanAcc, ConvertError>
    decreases i,
{
    if i == 0 {
        Ok(PlanAcc { entries: Seq::empty(), missing: Seq::empty(), ids: Seq::empty() })
    } else {
        match spec_plan_fold(imgs, k, files, yolo, (i - 1) as nat) {
            Err(e) => Err(e),
            Ok(acc) => spec_plan_step(acc, imgs[i - 1], i - 1 < k, files, yolo),
        }
    }
}

/// The whole plan: the fold's outcome plus the class index, which is
/// written only when asked for and only if any annotation was observed.
pub open spec fn spec_build_plan(
    imgs: Seq<ImageView>,
    k: nat,
    files: Seq<Seq<char>>,
    yolo: bool,
    create_classes: bool,
) -> Result<PlanView, ConvertError> {
    match spec_plan_fold(imgs, k, files, yolo, imgs.len()) {
        Err(e) => Err(e),
        Ok(acc) => Ok(
            PlanView {
                entries: acc.entries,
                missing: acc.missing,
                classes_content: if create_classes && acc.ids.len() > 0 {
                    Some(spec_classes_text(acc.ids))
                } else {
                    None
                },
                train_count: if !yolo {
                    0
                } else if k > imgs.len() {
                    imgs.len()
                } else {
                    k
                },
            },
        ),
    }
}

/// Whether a run takes this image's annotations into account: in the split
/// layout only an image that resolved to a file counts, in the flat layout
/// every image does.
pub open spec fn image_processed(img: ImageView, files: Seq<Seq<char>>, yolo: bool) -> bool {
    !yolo || spec_resolve(files, spec_base_name(img.file_name)) is Some
}

/// Some annotation of the image carries this category id.
pub open spec fn has_id(img: ImageView, e: u32) -> bool {
    exists|a: int| 0 <= a < img.annotations.len() && (#[trigger] img.annotations[a]).category_id
        == e
}

/// Law: the class index holds exactly the distinct category ids of the
/// annotations the run processed — those of found images in the split
/// layout, of every image in the flat layout — in strictly ascending order.
pub proof fn lemma_class_ids_complete(
    imgs: Seq<ImageView>,
    k: nat,
    files: Seq<Seq<char>>,
    yolo: bool,
    i: nat,
)
    requires
        i <= imgs.len(),
    ensures
        spec_plan_fold(imgs, k, files, yolo, i) matches Ok(acc) ==> {
            &&& strictly_sorted(acc.ids)
            &&& forall|e: u32|
                #[trigger] acc.ids.contains(e) <==> exists|t: int|
                    0 <= t < i && image_processed(#[trigger] imgs[t], files, yolo) && has_id(
                        imgs[t],
                        e,
                    )
        },
    decreases i,
{
    if i == 0 {
        if spec_plan_fold(imgs, k, files, yolo, 0) is Ok {
            let acc = spec_plan_fold(imgs, k, files, yolo, 0)->Ok_0;
            assert forall|e: u32| !(#[trigger] acc.ids.contains(e)) by {
                if acc.ids.contains(e) {
                    let t = choose|t: int| 0 <= t < acc.ids.len() && acc.ids[t] == e;
                }
            }
        }
    } else {
        lemma_class_ids_complete(imgs, k, files, yolo, (i - 1) as nat);
        if spec_plan_fold(imgs, k, files, yolo, i) is Ok {
            let acc = spec_plan_fold(imgs, k, files, yolo, i)->Ok_0;
            let acc0 = spec_plan_fold(imgs, k, files, yolo, (i - 1) as nat)->Ok_0;
            let img = imgs[i - 1];
            if image_processed(img, files, yolo) {
                lemma_insert_ids_props(acc0.ids, img.annotations);
                assert(acc.ids == spec_insert_ids(acc0.ids, img.annotations));
                assert forall|e: u32| #[trigger] acc.ids.contains(e) implies exists|t: int|
                    0 <= t < i && image_processed(#[trigger] imgs[t], files, yolo) && has_id(
                        imgs[t],
                        e,
                    ) by {
                    if acc0.ids.contains(e) {
                        let t = choose|t: int|
                            0 <= t < i - 1 && image_processed(#[trigger] imgs[t], files, yolo)
                                && has_id(imgs[t], e);
                        assert(0 <= t < i && image_processed(imgs[t], files, yolo) && has_id(
                            imgs[t],
                            e,
                        ));
                    } else {
                        assert(has_id(img, e));
                        assert(0 <= i - 1 < i && image_processed(imgs[i - 1], files, yolo)
                            && has_id(imgs[i - 1], e));
                    }
                }
                assert forall|e: u32|
                    (exists|t: int|
                        0 <= t < i && image_processed(#[trigger] imgs[t], files, yolo) && has_id(
                            imgs[t],
                            e,
                        )) implies #[trigger] acc.ids.contains(e) by {
                    let t = choose|t: int|
                        0 <= t < i && image_processed(#[trigger] imgs[t], files, yolo) && has_id(
                            imgs[t],
                            e,
                        );
                    if t < i - 1 {
                        assert(acc0.ids.contains(e));
                    }
                }
            } else {
                assert(acc.ids == acc0.ids);
                assert forall|e: u32|
                    (exists|t: int|
                        0 <= t < i && image_processed(#[trigger] imgs[t], files, yolo) && has_id(
                            imgs[t],
                            e,
                        )) implies #[trigger] acc.ids.contains(e) by {
                    let t = choose|t: int|
                        0 <= t < i && image_processed(#[trigger] imgs[t], files, yolo) && has_id(
                            imgs[t],
                            e,
                        );
                    assert(t != i - 1);
                }
                assert forall|e: u32| #[trigger] acc.ids.contains(e) implies exists|t: int|
                    0 <= t < i && image_processed(#[trigger] imgs[t], files, yolo) && has_id(
                        imgs[t],
                        e,
                    ) by {
                    let t = choose|t: int|
                        0 <= t < i - 1 && image_processed(#[trigger] imgs[t], files, yolo)
                            && has_id(imgs[t], e);
                    assert(0 <= t < i && image_processed(imgs[t], files, yolo) && has_id(
                        imgs[t],
                        e,
                    ));
                }
            }
        }
    }
}

/// A run that has failed stays failed through the remaining images.
proof fn lemma_fold_err_persists(
    imgs: Seq<ImageView>,
    k: nat,
    files: Seq<Seq<char>>,
    yolo: bool,
    i: nat,
    j: nat,
)
    requires
        i <= j,
        spec_plan_fold(imgs, k, files, yolo, i) is Err,
    ensures
        spec_plan_fold(imgs, k, files, yolo, j) == spec_plan_fold(imgs, k, files, yolo, i),
    decreases j - i,
{
    if j > i {
        lemma_fold_err_persists(imgs, k, files, yolo, i, (j - 1) as nat);
    }
}

/// Law: an image's label text is a function of that image alone — not of
/// its split, its position, or the file it resolved to. With the shuffle
/// order fixed by a seed, the whole plan is therefore fixed by the inputs.
pub proof fn lemma_label_content_stable(img: ImageView, is_train: bool, src: Seq<char>)
    ensures
        spec_yolo_entry(img, is_train, src).label_content == spec_label_content(img),
        spec_flat_entry(img).label_content == spec_label_content(img),
{
}

/// Builds the plan for images already decoded and ordered, the first
/// `train_count` of them bound for training when the split layout is on.
#[verifier::rlimit(100)]
pub fn build_plan(
    ordered: &Vec<UnifiedImage>,
    train_count: usize,
    files: &Vec<String>,
    yolo_structure: bool,
    create_classes: bool,
) -> (r: Result<Plan, ConvertError>)
    requires
        forall|i: int| 0 <= i < ordered@.len() ==> (#[trigger] ordered@[i])@.wf(),
    ensures
        match r {
            Ok(p) => spec_build_plan(
                ordered@.map_values(|im: UnifiedImage| im@),
                train_count as nat,
                files@.map_values(|s: String| s@),
                yolo_structure,
                create_classes,
            ) == Ok::<PlanView, ConvertError>(p@),
            Err(e) => spec_build_plan(
                ordered@.map_values(|im: UnifiedImage| im@),
                train_count as nat,
                files@.map_values(|s: String| s@),
                yolo_structure,
                create_classes,
            ) == Err::<PlanView, ConvertError>(e),
        },
{
    let ghost imgs = ordered@.map_values(|im: UnifiedImage| im@);
    let ghost filesv = files@.map_values(|s: String| s@);
    let n = ordered.len();
    let mut entries: Vec<PlanEntry> = Vec::new();
    let mut missing: Vec<String> = Vec::new();
    let mut ids: Vec<u32> = Vec::new();
    let mut i: usize = 0;
    proof {
        assert(entries@.map_values(|e: PlanEntry| e@) =~= Seq::<EntryView>::empty());
        assert(missing@.map_values(|s: String| s@) =~= Seq::<Seq<char>>::empty());
    }
    while i < n
        invariant
            n == ordered@.len(),
            i <= n,
            imgs == ordered@.map_values(|im: UnifiedImage| im@),
            filesv == files@.map_values(|s: String| s@),
            forall|t: int| 0 <= t < ordered@.len() ==> (#[trigger] ordered@[t])@.wf(),
            spec_plan_fold(imgs, train_count as nat, filesv, yolo_structure, i as nat) == Ok::<PlanAcc, ConvertError>(
                PlanAcc {
                    entries: entries@.map_values(|e: PlanEntry| e@),
                    missing: missing@.map_values(|s: String| s@),
                    ids: ids@,
                },
            ),
        decreases n - i,
    {
        let ghost acc0 = PlanAcc {
            entries: entries@.map_values(|e: PlanEntry| e@),
            missing: missing@.map_values(|s: String| s@),
            ids: ids@,
        };
        let image = &ordered[i];
        let base = base_name(image.file_name.as_str());
        let is_train = i < train_count;
        if yolo_structure {
            if base.as_str().unicode_len() == 0 {
                proof {
                    assert(spec_plan_fold(
                        imgs,
                        train_count as nat,
                        filesv,
                        yolo_structure,
                        i as nat + 1,
                    ) == Err::<PlanAcc, ConvertError>(ConvertError::InvalidFileName));
                    lemma_fold_err_persists(
                        imgs,
                        train_count as nat,
                        filesv,
                        yolo_structure,
                        i as nat + 1,
                        imgs.len() as nat,
                    );
                }
                return Err(ConvertError::InvalidFileName);
            }
            match find_image_file(files, base.as_str()) {
                None => {
                    missing.push(base);
                    proof {
                        assert(missing@.map_values(|s: String| s@) =~= acc0.missing.push(
                            spec_base_name(imgs[i as int].file_name),
                        ));
                        assert(spec_plan_fold(
                            imgs,
                            train_count as nat,
                            filesv,
                            yolo_structure,
                            i as nat + 1,
                        ) == Ok::<PlanAcc, ConvertError>(
                            PlanAcc {
                                entries: entries@.map_values(|e: PlanEntry| e@),
                                missing: missing@.map_values(|s: String| s@),
                                ids: ids@,
                            },
                        ));
                    }
                },
                Some(src) => {
                    let ghost srcv = src@;
                    let stem = stem_of(base.as_str());
                    let mut label_path = String::from_str(
                        if is_train {
                            "train/labels/"
                        } else {
                            "val/labels/"
                        },
                    );
                    label_path.append(stem.as_str());
                    label_path.append(".txt");
                    let mut dest = String::from_str(
                        if is_train {
                            "train/images/"
                        } else {
                            "val/images/"
                        },
                    );
                    dest.append(base.as_str());
                    let content = label_file_content(image);
                    let entry = PlanEntry {
                        label_path,
                        label_content: content,
                        is_train,
                        copy: Some(CopyAction { source: src, dest }),
                    };
                    proof {
                        assert(entry@ =~= spec_yolo_entry(imgs[i as int], i < train_count, srcv));
                    }
                    entries.push(entry);
                    ids = insert_ids_vec(ids, &image.annotations);
                    proof {
                        assert(entries@.map_values(|e: PlanEntry| e@) =~= acc0.entries.push(
                            entries@.last()@,
                        ));
                        assert(spec_plan_fold(
                            imgs,
                            train_count as nat,
                            filesv,
                            yolo_structure,
                            i as nat + 1,
                        ) == Ok::<PlanAcc, ConvertError>(
                            PlanAcc {
                                entries: entries@.map_values(|e: PlanEntry| e@),
                                missing: missing@.map_values(|s: String| s@),
                                ids: ids@,
                            },
                        ));
                    }
                },
            }
        } else {
            let stem = stem_of(base.as_str());
            let mut label_path = stem;
            label_path.append(".txt");
            let content = label_file_content(image);
            let entry = PlanEntry { label_path, label_content: content, is_train: false, copy: None };
            proof {
                assert(entry@ =~= spec_flat_entry(imgs[i as int]));
            }
            entries.push(entry);
            ids = insert_ids_vec(ids, &image.annotations);
            proof {
                assert(entries@.map_values(|e: PlanEntry| e@) =~= acc0.entries.push(
                    entries@.last()@,
                ));
                assert(spec_plan_fold(
                    imgs,
                    train_count as nat,
                    filesv,
                    yolo_structure,
                    i as nat + 1,
                ) == Ok::<PlanAcc, ConvertError>(
                    PlanAcc {
                        entries: entries@.map_values(|e: PlanEntry| e@),
                        missing: missing@.map_values(|s: String| s@),
                        ids: ids@,
                    },
                ));
            }
        }
        i += 1;
    }
    let classes_content = if create_classes && ids.len() > 0 {
        Some(classes_text(&ids))
    } else {
        None
    };
    let tc = if !yolo_structure {
        0
    } else if train_count > n {
        n
    } else {
        train_count
    };
    let plan = Plan { entries, missing, classes_content, train_count: tc };
    proof {
        assert(spec_build_plan(imgs, train_count as nat, filesv, yolo_structure, create_classes)
            == Ok::<PlanView, ConvertError>(plan@));
    }
    Ok(plan)
}

/// The path strings' views.
pub open spec fn str_views(files: Seq<String>) -> Seq<Seq<char>> {
    files.map_values(|s: String| s@)
}

/// The only way the fold itself fails is an empty base name.
proof fn lemma_fold_err_kind(imgs: Seq<ImageView>, k: nat, files: Seq<Seq<char>>, yolo: bool, i: nat)
    ensures
        spec_plan_fold(imgs, k, files, yolo, i) matches Err(e) ==> e
            == ConvertError::InvalidFileName,
    decreases i,
{
    if i > 0 {
        lemma_fold_err_kind(imgs, k, files, yolo, (i - 1) as nat);
    }
}

/// Two lists holding the same images in some orders are well formed
/// together.
proof fn lemma_multiset_wf(a: Seq<ImageView>, b: Seq<ImageView>)
    requires
        a.to_multiset() == b.to_multiset(),
        forall|i: int| 0 <= i < b.len() ==> (#[trigger] b[i]).wf(),
    ensures
        forall|i: int| 0 <= i < a.len() ==> (#[trigger] a[i]).wf(),
{
    broadcast use vstd::seq_lib::group_to_multiset_ensures;

    assert forall|i: int| 0 <= i < a.len() implies (#[trigger] a[i]).wf() by {
        assert(a.contains(a[i]));
        assert(a.to_multiset().count(a[i]) > 0);
        assert(b.to_multiset().count(a[i]) > 0);
        assert(b.contains(a[i]));
        let j = choose|j: int| 0 <= j < b.len() && b[j] == a[i];
    }
}

/// Shuffles the images and lays them out training first: the returned count
/// says how many of the leading images are training.
fn split_and_order(
    images: Vec<UnifiedImage>,
    train_ratio_micro: u64,
    rng: &mut rand::rngs::StdRng,
) -> (r: (Vec<UnifiedImage>, usize))
    requires
        forall|t: int| 0 <= t < images@.len() ==> (#[trigger] images@[t])@.wf(),
    ensures
        forall|t: int| 0 <= t < r.0@.len() ==> (#[trigger] r.0@[t])@.wf(),
        r.1 as nat == spec_train_count(images@.len() as nat, train_ratio_micro),
        r.0@.len() == images@.len(),
        r.0@.map_values(|im: UnifiedImage| im@).to_multiset() == images@.map_values(
            |im: UnifiedImage| im@,
        ).to_multiset(),
{
    let ghost allv = images@.map_values(|im: UnifiedImage| im@);
    proof {
        assert forall|t: int| 0 <= t < allv.len() implies (#[trigger] allv[t]).wf() by {
            assert(allv[t] == images@[t]@);
        }
    }
    let (train, val) = split_images(images, train_ratio_micro, rng);
    let k = train.len();
    let mut ordered = train;
    let ghost t0 = ordered@;
    let mut rest = val;
    let ghost v0 = rest@;
    ordered.append(&mut rest);
    proof {
        let f = |im: UnifiedImage| im@;
        assert(ordered@.map_values(f) =~= t0.map_values(f) + v0.map_values(f));
        vstd::seq_lib::lemma_multiset_commutative(t0.map_values(f), v0.map_values(f));
        lemma_multiset_wf(ordered@.map_values(f), allv);
        assert forall|t: int| 0 <= t < ordered@.len() implies (#[trigger] ordered@[t])@.wf() by {
            assert(ordered@.map_values(f)[t] == ordered@[t]@);
        }
    }
    (ordered, k)
}

/// How many of the ordered images lead the training set in a run: the
/// ratio's floor of the count in the split layout, none in the flat one.
pub open spec fn spec_run_train_count(yolo: bool, n: nat, train_ratio_micro: u64) -> nat {
    if yolo {
        spec_train_count(n, train_ratio_micro)
    } else {
        0
    }
}

/// Every image the fold has passed became exactly one entry or one missing
/// name.
proof fn lemma_fold_counts(imgs: Seq<ImageView>, k: nat, files: Seq<Seq<char>>, yolo: bool, i: nat)
    ensures
        spec_plan_fold(imgs, k, files, yolo, i) matches Ok(acc) ==> acc.entries.len()
            + acc.missing.len() == i,
    decreases i,
{
    if i > 0 {
        lemma_fold_counts(imgs, k, files, yolo, (i - 1) as nat);
    }
}

/// The flat layout never aborts: every image yields an entry.
proof fn lemma_flat_fold_ok(imgs: Seq<ImageView>, k: nat, files: Seq<Seq<char>>, i: nat)
    ensures
        spec_plan_fold(imgs, k, files, false, i) is Ok,
    decreases i,
{
    if i > 0 {
        lemma_flat_fold_ok(imgs, k, files, (i - 1) as nat);
    }
}

/// Whether a document fits the chosen schema.
pub open spec fn doc_valid_for(doc: Json, format: Format) -> bool {
    match format {
        Format::Standard => valid_standard_doc(doc),
        Format::Damm => valid_damm_doc(doc),
    }
}

/// The unified images a document yields under the chosen schema.
pub open spec fn doc_images(doc: Json, format: Format) -> Seq<ImageView> {
    match format {
        Format::Standard => spec_standard_doc_images(doc),
        Format::Damm => spec_damm_doc_images(doc),
    }
}

/// The text reads as this document, and the document fits the schema.
pub open spec fn content_reads_to(content: Seq<char>, format: Format, doc: Json) -> bool {
    &&& spec_parse_json(content) == Ok::<JVal, ParseError>(json_view(doc))
    &&& json_bounded(doc)
    &&& doc_valid_for(doc, format)
}

/// The text is refused with this error: it does not read, or what it reads
/// does not fit the schema.
pub open spec fn content_rejected(content: Seq<char>, format: Format, pe: ParseError) -> bool {
    ||| spec_parse_json(content) == Err::<JVal, ParseError>(pe)
    ||| exists|doc: Json|
        {
            &&& spec_parse_json(content) == Ok::<JVal, ParseError>(#[trigger] json_view(doc))
            &&& json_bounded(doc)
            &&& !doc_valid_for(doc, format)
        }
}

/// Every text reads to its document, in order.
pub open spec fn docs_read_from(contents: Seq<Seq<char>>, format: Format, docs: Seq<Json>) -> bool {
    &&& docs.len() == contents.len()
    &&& forall|t: int|
        0 <= t < contents.len() ==> content_reads_to(contents[t], format, #[trigger] docs[t])
}

/// All the documents' unified images, concatenated in input order.
pub open spec fn spec_all_images(docs: Seq<Json>, format: Format) -> Seq<ImageView>
    decreases docs.len(),
{
    if docs.len() == 0 {
        Seq::empty()
    } else {
        spec_all_images(docs.drop_last(), format) + doc_images(docs.last(), format)
    }
}

/// Decodes every input text under the chosen schema; the first bad file
/// aborts the whole run, naming its position.
fn parse_all(contents: &Vec<String>, format: Format) -> (r: Result<Vec<UnifiedImage>, ConvertError>)
    ensures
        r matches Ok(v) ==> forall|t: int| 0 <= t < v@.len() ==> (#[trigger] v@[t])@.wf(),
        r matches Ok(v) ==> exists|docs: Seq<Json>|
            {
                &&& #[trigger] docs_read_from(str_views(contents@), format, docs)
                &&& v@.map_values(|im: UnifiedImage| im@) == spec_all_images(docs, format)
            },
        r matches Err(e) ==> e is Parse,
        r matches Err(ConvertError::Parse(pe, idx)) ==> idx < contents@.len() && content_rejected(
            str_views(contents@)[idx as int],
            format,
            pe,
        ),
{
    let mut all: Vec<UnifiedImage> = Vec::new();
    let ghost mut docs: Seq<Json> = Seq::empty();
    let nc = contents.len();
    let mut i: usize = 0;
    proof {
        assert(all@.map_values(|im: UnifiedImage| im@) =~= Seq::<ImageView>::empty());
    }
    while i < nc
        invariant
            nc == contents@.len(),
            i <= nc,
            forall|t: int| 0 <= t < all@.len() ==> (#[trigger] all@[t])@.wf(),
            docs.len() == i as int,
            forall|t: int|
                0 <= t < i ==> content_reads_to(
                    str_views(contents@)[t],
                    format,
                    #[trigger] docs[t],
                ),
            all@.map_values(|im: UnifiedImage| im@) == spec_all_images(docs, format),
        decreases nc - i,
    {
        let parsed = match format {
            Format::Standard => crate::schema::parse_standard_format(contents[i].as_str()),
            Format::Damm => crate::schema::parse_damm_format(contents[i].as_str()),
        };
        match parsed {
            Ok(imgs) => {
                let ghost prev_all = all@.map_values(|im: UnifiedImage| im@);
                let ghost imgv = imgs@.map_values(|im: UnifiedImage| im@);
                proof {
                    let cv = contents@[i as int]@;
                    assert(str_views(contents@)[i as int] == cv);
                    let doc = match format {
                        Format::Standard => choose|doc: Json|
                            {
                                &&& spec_parse_json(cv) == Ok::<JVal, ParseError>(
                                    #[trigger] json_view(doc),
                                )
                                &&& json_bounded(doc)
                                &&& valid_standard_doc(doc)
                                &&& imgv == spec_standard_doc_images(doc)
                            },
                        Format::Damm => choose|doc: Json|
                            {
                                &&& spec_parse_json(cv) == Ok::<JVal, ParseError>(
                                    #[trigger] json_view(doc),
                                )
                                &&& json_bounded(doc)
                                &&& valid_damm_doc(doc)
                                &&& imgv == spec_damm_doc_images(doc)
                            },
                    };
                    assert(content_reads_to(cv, format, doc));
                    assert(imgv == doc_images(doc, format));
                    let docs0 = docs;
                    docs = docs0.push(doc);
                    assert(docs.drop_last() =~= docs0);
                    assert(docs.last() == doc);
                    assert(spec_all_images(docs, format) == prev_all + imgv);
                }
                let mut imgs = imgs;
                all.append(&mut imgs);
                proof {
                    assert(all@.map_values(|im: UnifiedImage| im@) =~= prev_all + imgv);
                }
            },
            Err(e) => {
                proof {
                    assert(str_views(contents@)[i as int] == contents@[i as int]@);
                    assert(content_rejected(contents@[i as int]@, format, e));
                }
                return Err(ConvertError::Parse(e, i));
            },
        }
        i += 1;
    }
    proof {
        assert(str_views(contents@).len() == contents@.len());
        assert forall|t: int| 0 <= t < str_views(contents@).len() implies content_reads_to(
            str_views(contents@)[t],
            format,
            #[trigger] docs[t],
        ) by {}
        assert(docs_read_from(str_views(contents@), format, docs));
    }
    Ok(all)
}

/// One whole conversion run, up to the point of touching disk: decode every
/// input text, shuffle and split when the split layout is on, and lay out
/// everything to be written. The plan is an exact function of the decoded
/// images in their final order, the discovered files and the flags.
#[verifier::rlimit(100)]
pub fn convert_coco_to_yolo(
    contents: &Vec<String>,
    format: Format,
    create_classes: bool,
    train_ratio_micro: u64,
    yolo_structure: bool,
    image_files: &Vec<String>,
    rng: &mut rand::rngs::StdRng,
) -> (r: Result<Plan, ConvertError>)
    ensures
        (contents@.len() == 0) <==> r == Err::<Plan, ConvertError>(ConvertError::NoInputFiles),
        r matches Err(e) ==> (e is NoInputFiles || e is Parse || e is InvalidFileName),
        r matches Err(ConvertError::Parse(pe, idx)) ==> idx < contents@.len() && content_rejected(
            str_views(contents@)[idx as int],
            format,
            pe,
        ),
        r matches Err(e) && e is InvalidFileName ==> yolo_structure,
        !yolo_structure && contents@.len() > 0 ==> (r is Ok || (r matches Err(e) && e is Parse)),
        r matches Ok(p) ==> exists|imgs: Seq<ImageView>|
            {
                &&& (forall|t: int| 0 <= t < imgs.len() ==> (#[trigger] imgs[t]).wf())
                &&& #[trigger] spec_build_plan(
                    imgs,
                    spec_run_train_count(yolo_structure, imgs.len() as nat, train_ratio_micro),
                    str_views(image_files@),
                    yolo_structure,
                    create_classes,
                ) == Ok::<PlanView, ConvertError>(p@)
                &&& exists|docs: Seq<Json>|
                    {
                        &&& #[trigger] docs_read_from(str_views(contents@), format, docs)
                        &&& imgs.to_multiset() == spec_all_images(docs, format).to_multiset()
                        &&& (!yolo_structure ==> imgs == spec_all_images(docs, format))
                    }
            },
        r matches Ok(p) ==> p@.train_count == spec_run_train_count(
            yolo_structure,
            (p@.entries.len() + p@.missing.len()) as nat,
            train_ratio_micro,
        ),
{
    if contents.len() == 0 {
        return Err(ConvertError::NoInputFiles);
    }
    let all = match parse_all(contents, format) {
        Ok(v) => v,
        Err(e) => {
            return Err(e);
        },
    };
    if yolo_structure {
        let ghost allv = all@.map_values(|im: UnifiedImage| im@);
        let (ordered, k) = split_and_order(all, train_ratio_micro, rng);
        let ghost ordv = ordered@.map_values(|im: UnifiedImage| im@);
        match build_plan(&ordered, k, image_files, true, create_classes) {
            Ok(p) => {
                proof {
                    assert forall|t: int| 0 <= t < ordv.len() implies (#[trigger] ordv[t]).wf() by {
                        assert(ordv[t] == ordered@[t]@);
                    }
                    assert(k as nat == spec_run_train_count(
                        yolo_structure,
                        ordv.len() as nat,
                        train_ratio_micro,
                    ));
                    assert(spec_build_plan(
                        ordv,
                        spec_run_train_count(yolo_structure, ordv.len() as nat, train_ratio_micro),
                        str_views(image_files@),
                        yolo_structure,
                        create_classes,
                    ) == Ok::<PlanView, ConvertError>(p@));
                    let docs = choose|docs: Seq<Json>|
                        {
                            &&& #[trigger] docs_read_from(str_views(contents@), format, docs)
                            &&& allv == spec_all_images(docs, format)
                        };
                    assert(ordv.to_multiset() == spec_all_images(docs, format).to_multiset());
                    lemma_fold_counts(
                        ordv,
                        k as nat,
                        str_views(image_files@),
                        true,
                        ordv.len() as nat,
                    );
                }
                Ok(p)
            },
            Err(e) => {
                proof {
                    lemma_fold_err_kind(
                        ordv,
                        k as nat,
                        image_files@.map_values(|s: String| s@),
                        true,
                        ordv.len() as nat,
                    );
                }
                Err(e)
            },
        }
    } else {
        match build_plan(&all, 0, image_files, false, create_classes) {
            Ok(p) => {
                proof {
                    let iv = all@.map_values(|im: UnifiedImage| im@);
                    assert forall|t: int| 0 <= t < iv.len() implies (#[trigger] iv[t]).wf() by {
                        assert(iv[t] == all@[t]@);
                    }
                    assert(spec_build_plan(
                        iv,
                        spec_run_train_count(yolo_structure, iv.len() as nat, train_ratio_micro),
                        str_views(image_files@),
                        yolo_structure,
                        create_classes,
                    ) == Ok::<PlanView, ConvertError>(p@));
                    let docs = choose|docs: Seq<Json>|
                        {
                            &&& #[trigger] docs_read_from(str_views(contents@), format, docs)
                            &&& iv == spec_all_images(docs, format)
                        };
                    assert(iv.to_multiset() == spec_all_images(docs, format).to_multiset());
                }
                Ok(p)
            },
            Err(e) => {
                proof {
                    lemma_flat_fold_ok(
                        all@.map_values(|im: UnifiedImage| im@),
                        0,
                        str_views(image_files@),
                        all@.map_values(|im: UnifiedImage| im@).len() as nat,
                    );
                    assert(false);
                }
                Err(e)
            },
        }
    }
}

} // verus!