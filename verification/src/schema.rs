//! Decoding of the two input schemas into the unified representation.
//!
//! Each decoder validates the shape its schema promises and extracts plain
//! values. A document that does not match the shape is rejected as a whole;
//! fields the pipeline never reads are still held to their declared shape,
//! and unknown fields pass unexamined.

use vstd::prelude::*;
use crate::json::{Json, JVal, json_bounded, json_view, lemma_fields_bounded_index, lemma_seq_bounded_index, spec_parse_json};
use crate::model::{BBox, ImageView, ParseError, UnifiedAnnotation, UnifiedImage};
use crate::num::MAX_COORD_MICRO;
use crate::strutil::str_eq;

verus! {

/// The value of the last field named `key`, as later fields override earlier
/// ones.
pub open spec fn obj_get(fields: Seq<(String, Json)>, key: Seq<char>) -> Option<Json>
    decreases fields.len(),
{
    if fields.len() == 0 {
        None
    } else if fields.last().0@ == key {
        Some(fields.last().1)
    } else {
        obj_get(fields.drop_last(), key)
    }
}

/// A found field is one of the fields.
pub proof fn lemma_obj_get_in(fields: Seq<(String, Json)>, key: Seq<char>)
    ensures
        obj_get(fields, key) matches Some(v) ==> exists|k: int|
            0 <= k < fields.len() && (#[trigger] fields[k]).1 == v,
    decreases fields.len(),
{
    if fields.len() > 0 && fields.last().0@ != key {
        lemma_obj_get_in(fields.drop_last(), key);
        if obj_get(fields, key) is Some {
            let v = obj_get(fields, key)->0;
            let k = choose|k: int|
                0 <= k < fields.drop_last().len() && (#[trigger] fields.drop_last()[k]).1 == v;
            assert(fields[k] == fields.drop_last()[k]);
        }
    }
}

/// `obj_get` answers the last field carrying `key`.
proof fn lemma_obj_get_is(fields: Seq<(String, Json)>, key: Seq<char>, j: int)
    requires
        0 <= j < fields.len(),
        fields[j].0@ == key,
        forall|k: int| j < k < fields.len() ==> (#[trigger] fields[k]).0@ != key,
    ensures
        obj_get(fields, key) == Some(fields[j].1),
    decreases fields.len(),
{
    if j < fields.len() - 1 {
        assert(fields.last().0@ != key);
        assert forall|k: int| j < k < fields.drop_last().len() implies (#[trigger] fields.drop_last()[
            k]).0@ != key by {
            assert(fields.drop_last()[k] == fields[k]);
        }
        assert(fields.drop_last()[j] == fields[j]);
        lemma_obj_get_is(fields.drop_last(), key, j);
    }
}

/// Looks a field up by name, later fields overriding earlier ones.
pub fn obj_get_ref<'a>(fields: &'a Vec<(String, Json)>, key: &str) -> (r: Option<&'a Json>)
    ensures
        match r {
            Some(v) => obj_get(fields@, key@) == Some(*v),
            None => obj_get(fields@, key@) is None,
        },
{
    let n = fields.len();
    let mut i: usize = n;
    while i > 0
        invariant
            n == fields@.len(),
            i <= n,
            forall|k: int| i <= k < n ==> (#[trigger] fields@[k]).0@ != key@,
        decreases i,
    {
        if str_eq(fields[i - 1].0.as_str(), key) {
            proof {
                lemma_obj_get_is(fields@, key@, i - 1);
            }
            return Some(&fields[i - 1].1);
        }
        i -= 1;
    }
    proof {
        lemma_obj_get_none(fields@, key@);
    }
    None
}

/// Without a field of that name, `obj_get` finds nothing.
proof fn lemma_obj_get_none(fields: Seq<(String, Json)>, key: Seq<char>)
    requires
        forall|k: int| 0 <= k < fields.len() ==> (#[trigger] fields[k]).0@ != key,
    ensures
        obj_get(fields, key) is None,
    decreases fields.len(),
{
    if fields.len() > 0 {
        assert forall|k: int| 0 <= k < fields.drop_last().len() implies (#[trigger] fields.drop_last()[
            k]).0@ != key by {
            assert(fields.drop_last()[k] == fields[k]);
        }
        lemma_obj_get_none(fields.drop_last(), key);
    }
}

/// The value of a number written as an unsigned integer that fits `u32`.
pub open spec fn as_u32(j: Json) -> Option<u32> {
    match j {
        Json::Num { micro, integral, big } => if integral && !big && 0 <= micro && micro
            % 1_000_000 == 0 && micro / 1_000_000 <= u32::MAX as i64 {
            Some((micro / 1_000_000) as u32)
        } else {
            None
        },
        _ => None,
    }
}

/// Reads a `u32` out of a number value.
pub fn num_as_u32(j: &Json) -> (r: Option<u32>)
    ensures
        r == as_u32(*j),
{
    match j {
        Json::Num { micro, integral, big } => {
            if *integral && !*big && *micro >= 0 && *micro % 1_000_000 == 0 && *micro / 1_000_000
                <= u32::MAX as i64 {
                Some((*micro / 1_000_000) as u32)
            } else {
                None
            }
        },
        _ => None,
    }
}

/// A field read as `u32`, if present and in shape.
pub open spec fn get_u32(fields: Seq<(String, Json)>, key: Seq<char>) -> Option<u32> {
    match obj_get(fields, key) {
        Some(v) => as_u32(v),
        None => None,
    }
}

/// A field read as a string, if present and in shape.
pub open spec fn get_str(fields: Seq<(String, Json)>, key: Seq<char>) -> Option<Seq<char>> {
    match obj_get(fields, key) {
        Some(Json::Str(s)) => Some(s@),
        _ => None,
    }
}

/// One validated image record of the standard schema.
pub struct CocoImgV {
    pub id: u32,
    pub file_name: Seq<char>,
    pub width: u32,
    pub height: u32,
}

/// One validated annotation record of the standard schema; the box is
/// `[x, y, w, h]` in micro units.
#[derive(Clone, Copy, Debug, PartialEq, Eq, Structural)]
pub struct CocoAnnV {
    pub image_id: u32,
    pub category_id: u32,
    pub x: i64,
    pub y: i64,
    pub w: i64,
    pub h: i64,
}

/// The four box scalars of a standard-schema annotation, if in shape.
pub open spec fn bbox4_of(f: Seq<(String, Json)>) -> Option<(i64, i64, i64, i64)> {
    match obj_get(f, "bbox"@) {
        Some(Json::Arr(b)) => if b@.len() == 4 {
            match (b@[0], b@[1], b@[2], b@[3]) {
                (
                    Json::Num { micro: x, big: false, .. },
                    Json::Num { micro: y, big: false, .. },
                    Json::Num { micro: w, big: false, .. },
                    Json::Num { micro: h, big: false, .. },
                ) => Some((x, y, w, h)),
                _ => None,
            }
        } else {
            None
        },
        _ => None,
    }
}

/// An image record carries a `u32` id, a name, and positive dimensions.
pub open spec fn valid_coco_image(j: Json) -> bool {
    &&& j matches Json::Obj(f)
    &&& get_u32(f@, "id"@) is Some
    &&& get_str(f@, "file_name"@) is Some
    &&& (get_u32(f@, "width"@) matches Some(w) && w >= 1)
    &&& (get_u32(f@, "height"@) matches Some(h) && h >= 1)
}

pub open spec fn coco_image_v(j: Json) -> CocoImgV
    recommends
        valid_coco_image(j),
{
    let f = j->Obj_0;
    CocoImgV {
        id: get_u32(f@, "id"@)->0,
        file_name: get_str(f@, "file_name"@)->0,
        width: get_u32(f@, "width"@)->0,
        height: get_u32(f@, "height"@)->0,
    }
}

/// An annotation record carries its ids, a four-scalar box, an area number,
/// and, when present, an unsigned crowd flag.
pub open spec fn valid_coco_ann(j: Json) -> bool {
    &&& j matches Json::Obj(f)
    &&& get_u32(f@, "id"@) is Some
    &&& get_u32(f@, "image_id"@) is Some
    &&& get_u32(f@, "category_id"@) is Some
    &&& obj_get(f@, "area"@) matches Some(Json::Num { .. })
    &&& match obj_get(f@, "iscrowd"@) {
        None => true,
        Some(v) => as_u32(v) is Some,
    }
    &&& bbox4_of(f@) is Some
}

pub open spec fn coco_ann_v(j: Json) -> CocoAnnV
    recommends
        valid_coco_ann(j),
{
    let f = j->Obj_0;
    let b = bbox4_of(f@)->0;
    CocoAnnV {
        image_id: get_u32(f@, "image_id"@)->0,
        category_id: get_u32(f@, "category_id"@)->0,
        x: b.0,
        y: b.1,
        w: b.2,
        h: b.3,
    }
}

/// A standard-schema box turned into corner form: `x2 = x + w`, `y2 = y + h`.
pub open spec fn unified_ann_of_coco(a: CocoAnnV) -> UnifiedAnnotation {
    UnifiedAnnotation {
        bbox: BBox { x1: a.x, y1: a.y, x2: (a.x + a.w) as i64, y2: (a.y + a.h) as i64 },
        category_id: a.category_id,
    }
}

/// The annotations referencing image `id`, in input order, converted.
pub open spec fn spec_anns_for(anns: Seq<Json>, id: u32) -> Seq<UnifiedAnnotation>
    decreases anns.len(),
{
    if anns.len() == 0 {
        Seq::empty()
    } else {
        let rest = spec_anns_for(anns.drop_last(), id);
        let a = coco_ann_v(anns.last());
        if a.image_id == id {
            rest.push(unified_ann_of_coco(a))
        } else {
            rest
        }
    }
}

pub open spec fn unified_of_coco_image(j: Json, anns: Seq<Json>) -> ImageView {
    let im = coco_image_v(j);
    ImageView {
        file_name: im.file_name,
        width: im.width,
        height: im.height,
        annotations: spec_anns_for(anns, im.id),
    }
}

/// Whether a later image record reuses the id of the record at the front.
pub open spec fn later_dup(ims: Seq<Json>) -> bool
    recommends
        ims.len() > 0,
{
    exists|k: int|
        0 < k < ims.len() && coco_image_v(#[trigger] ims[k]).id == coco_image_v(ims.first()).id
}

/// The unified images of a standard document: one per declared image id,
/// the last record with an id winning, in order of the surviving records.
pub open spec fn spec_standard_images(ims: Seq<Json>, anns: Seq<Json>) -> Seq<ImageView>
    decreases ims.len(),
{
    if ims.len() == 0 {
        Seq::empty()
    } else {
        let rest = spec_standard_images(ims.drop_first(), anns);
        if later_dup(ims) {
            rest
        } else {
            seq![unified_of_coco_image(ims.first(), anns)] + rest
        }
    }
}

/// A standard document: an object holding an image list and an annotation
/// list, every record valid; a category list may be present in list shape.
pub open spec fn valid_standard_doc(doc: Json) -> bool {
    &&& doc matches Json::Obj(f)
    &&& obj_get(f@, "images"@) matches Some(Json::Arr(ims))
    &&& obj_get(f@, "annotations"@) matches Some(Json::Arr(anns))
    &&& match obj_get(f@, "categories"@) {
        None => true,
        Some(Json::Null) => true,
        Some(Json::Arr(c)) => true,
        _ => false,
    }
    &&& forall|i: int| 0 <= i < ims@.len() ==> #[trigger] valid_coco_image(ims@[i])
    &&& forall|i: int| 0 <= i < anns@.len() ==> #[trigger] valid_coco_ann(anns@[i])
}

pub open spec fn spec_standard_doc_images(doc: Json) -> Seq<ImageView>
    recommends
        valid_standard_doc(doc),
{
    let f = doc->Obj_0;
    let ims = obj_get(f@, "images"@)->0->Arr_0;
    let anns = obj_get(f@, "annotations"@)->0->Arr_0;
    spec_standard_images(ims@, anns@)
}

/// One decoded image record of the standard schema.
struct CocoImgRec {
    id: u32,
    file_name: String,
    width: u32,
    height: u32,
}

/// Decodes and checks one standard-schema annotation record.
fn extract_coco_ann(j: &Json) -> (r: Result<CocoAnnV, ParseError>)
    requires
        json_bounded(*j),
    ensures
        (r is Ok) == valid_coco_ann(*j),
        r matches Ok(a) ==> {
            &&& a == coco_ann_v(*j)
            &&& -MAX_COORD_MICRO <= a.x <= MAX_COORD_MICRO
            &&& -MAX_COORD_MICRO <= a.y <= MAX_COORD_MICRO
            &&& -MAX_COORD_MICRO <= a.w <= MAX_COORD_MICRO
            &&& -MAX_COORD_MICRO <= a.h <= MAX_COORD_MICRO
        },
{
    let f = match j {
        Json::Obj(f) => f,
        _ => {
            return Err(ParseError::WrongType);
        },
    };
    let image_id = match obj_get_ref(f, "image_id") {
        Some(v) => match num_as_u32(v) {
            Some(x) => x,
            None => {
                return Err(ParseError::WrongType);
            },
        },
        None => {
            return Err(ParseError::MissingField);
        },
    };
    let category_id = match obj_get_ref(f, "category_id") {
        Some(v) => match num_as_u32(v) {
            Some(x) => x,
            None => {
                return Err(ParseError::WrongType);
            },
        },
        None => {
            return Err(ParseError::MissingField);
        },
    };
    match obj_get_ref(f, "id") {
        Some(v) => {
            if num_as_u32(v).is_none() {
                return Err(ParseError::WrongType);
            }
        },
        None => {
            return Err(ParseError::MissingField);
        },
    }
    match obj_get_ref(f, "area") {
        Some(v) => match v {
            Json::Num { .. } => {},
            _ => {
                return Err(ParseError::WrongType);
            },
        },
        None => {
            return Err(ParseError::MissingField);
        },
    }
    match obj_get_ref(f, "iscrowd") {
        Some(v) => {
            if num_as_u32(v).is_none() {
                return Err(ParseError::WrongType);
            }
        },
        None => {},
    }
    let b = match obj_get_ref(f, "bbox") {
        Some(v) => match v {
            Json::Arr(b) => b,
            _ => {
                return Err(ParseError::WrongType);
            },
        },
        None => {
            return Err(ParseError::MissingField);
        },
    };
    if b.len() != 4 {
        return Err(ParseError::BadBoxArity);
    }
    proof {
        lemma_obj_get_in(f@, "bbox"@);
        let vv = obj_get(f@, "bbox"@)->0;
        let k = choose|k: int| 0 <= k < f@.len() && (#[trigger] f@[k]).1 == vv;
        lemma_fields_bounded_index(f@, k);
        assert(json_bounded(Json::Arr(*b)));
        lemma_seq_bounded_index(b@, 0);
        lemma_seq_bounded_index(b@, 1);
        lemma_seq_bounded_index(b@, 2);
        lemma_seq_bounded_index(b@, 3);
    }
    let x = match &b[0] {
        Json::Num { micro, big, .. } => {
            if *big {
                return Err(ParseError::NumberTooLarge);
            }
            *micro
        },
        _ => {
            return Err(ParseError::WrongType);
        },
    };
    let y = match &b[1] {
        Json::Num { micro, big, .. } => {
            if *big {
                return Err(ParseError::NumberTooLarge);
            }
            *micro
        },
        _ => {
            return Err(ParseError::WrongType);
        },
    };
    let w = match &b[2] {
        Json::Num { micro, big, .. } => {
            if *big {
                return Err(ParseError::NumberTooLarge);
            }
            *micro
        },
        _ => {
            return Err(ParseError::WrongType);
        },
    };
    let h = match &b[3] {
        Json::Num { micro, big, .. } => {
            if *big {
                return Err(ParseError::NumberTooLarge);
            }
            *micro
        },
        _ => {
            return Err(ParseError::WrongType);
        },
    };
    Ok(CocoAnnV { image_id, category_id, x, y, w, h })
}

/// Decodes and checks one standard-schema image record.
fn extract_coco_image(j: &Json) -> (r: Result<CocoImgRec, ParseError>)
    ensures
        (r is Ok) == valid_coco_image(*j),
        r matches Ok(rec) ==> {
            let v = coco_image_v(*j);
            &&& rec.id == v.id
            &&& rec.file_name@ == v.file_name
            &&& rec.width == v.width
            &&& rec.height == v.height
            &&& rec.width >= 1
            &&& rec.height >= 1
        },
{
    let f = match j {
        Json::Obj(f) => f,
        _ => {
            return Err(ParseError::WrongType);
        },
    };
    let id = match obj_get_ref(f, "id") {
        Some(v) => match num_as_u32(v) {
            Some(x) => x,
            None => {
                return Err(ParseError::WrongType);
            },
        },
        None => {
            return Err(ParseError::MissingField);
        },
    };
    let file_name = match obj_get_ref(f, "file_name") {
        Some(v) => match v {
            Json::Str(s) => s.clone(),
            _ => {
                return Err(ParseError::WrongType);
            },
        },
        None => {
            return Err(ParseError::MissingField);
        },
    };
    let width = match obj_get_ref(f, "width") {
        Some(v) => match num_as_u32(v) {
            Some(x) => x,
            None => {
                return Err(ParseError::WrongType);
            },
        },
        None => {
            return Err(ParseError::MissingField);
        },
    };
    let height = match obj_get_ref(f, "height") {
        Some(v) => match num_as_u32(v) {
            Some(x) => x,
            None => {
                return Err(ParseError::WrongType);
            },
        },
        None => {
            return Err(ParseError::MissingField);
        },
    };
    if width == 0 || height == 0 {
        return Err(ParseError::BadDimension);
    }
    Ok(CocoImgRec { id, file_name, width, height })
}

/// The document is an object whose list fields have been taken apart, with a
/// category list absent or in list shape.
spec fn std_parts_ok(doc: Json, f: Vec<(String, Json)>, ims: Vec<Json>, anns: Vec<Json>) -> bool {
    &&& doc == Json::Obj(f)
    &&& obj_get(f@, "images"@) == Some(Json::Arr(ims))
    &&& obj_get(f@, "annotations"@) == Some(Json::Arr(anns))
    &&& match obj_get(f@, "categories"@) {
        None => true,
        Some(Json::Null) => true,
        Some(Json::Arr(c)) => true,
        _ => false,
    }
}

/// With the parts named, document validity is validity of every record.
proof fn lemma_std_doc_valid(doc: Json, f: Vec<(String, Json)>, ims: Vec<Json>, anns: Vec<Json>)
    requires
        std_parts_ok(doc, f, ims, anns),
    ensures
        valid_standard_doc(doc) <==> {
            &&& forall|i: int| 0 <= i < ims@.len() ==> #[trigger] valid_coco_image(ims@[i])
            &&& forall|i: int| 0 <= i < anns@.len() ==> #[trigger] valid_coco_ann(anns@[i])
        },
        spec_standard_doc_images(doc) == spec_standard_images(ims@, anns@),
{
}

/// Decodes a standard document that has already been read into a tree.
pub fn unified_of_standard(doc: &Json) -> (r: Result<Vec<UnifiedImage>, ParseError>)
    requires
        json_bounded(*doc),
    ensures
        (r is Ok) == valid_standard_doc(*doc),
        r matches Ok(imgs) ==> {
            &&& imgs@.map_values(|im: UnifiedImage| im@) == spec_standard_doc_images(*doc)
            &&& forall|i: int| 0 <= i < imgs@.len() ==> (#[trigger] imgs@[i])@.wf()
        },
{
    let f = match doc {
        Json::Obj(f) => f,
        _ => {
            return Err(ParseError::WrongType);
        },
    };
    let ims = match obj_get_ref(f, "images") {
        Some(v) => match v {
            Json::Arr(a) => a,
            _ => {
                return Err(ParseError::WrongType);
            },
        },
        None => {
            return Err(ParseError::MissingField);
        },
    };
    let anns = match obj_get_ref(f, "annotations") {
        Some(v) => match v {
            Json::Arr(a) => a,
            _ => {
                return Err(ParseError::WrongType);
            },
        },
        None => {
            return Err(ParseError::MissingField);
        },
    };
    match obj_get_ref(f, "categories") {
        None => {},
        Some(v) => match v {
            Json::Null => {},
            Json::Arr(_) => {},
            _ => {
                return Err(ParseError::WrongType);
            },
        },
    }
    proof {
        lemma_obj_get_in(f@, "annotations"@);
        let va = obj_get(f@, "annotations"@)->0;
        let ka = choose|k: int| 0 <= k < f@.len() && (#[trigger] f@[k]).1 == va;
        lemma_fields_bounded_index(f@, ka);
        assert(json_bounded(Json::Arr(*anns)));
        assert(std_parts_ok(*doc, *f, *ims, *anns));
    }
    let nimg = ims.len();
    let nann = anns.len();
    // check every annotation record once, keeping its plain values
    let mut ann_recs: Vec<CocoAnnV> = Vec::new();
    let mut t: usize = 0;
    while t < nann
        invariant
            std_parts_ok(*doc, *f, *ims, *anns),
            nann == anns@.len(),
            t <= nann,
            ann_recs@.len() == t as int,
            json_bounded(Json::Arr(*anns)),
            forall|k: int| 0 <= k < t ==> #[trigger] valid_coco_ann(anns@[k]),
            forall|k: int| 0 <= k < t ==> #[trigger] ann_recs@[k] == coco_ann_v(anns@[k]),
            forall|k: int|
                0 <= k < t ==> {
                    &&& -MAX_COORD_MICRO <= (#[trigger] ann_recs@[k]).x <= MAX_COORD_MICRO
                    &&& -MAX_COORD_MICRO <= ann_recs@[k].y <= MAX_COORD_MICRO
                    &&& -MAX_COORD_MICRO <= ann_recs@[k].w <= MAX_COORD_MICRO
                    &&& -MAX_COORD_MICRO <= ann_recs@[k].h <= MAX_COORD_MICRO
                },
        decreases nann - t,
    {
        proof {
            lemma_seq_bounded_index(anns@, t as int);
        }
        match extract_coco_ann(&anns[t]) {
            Ok(a) => {
                ann_recs.push(a);
            },
            Err(e) => {
                proof {
                    lemma_std_doc_valid(*doc, *f, *ims, *anns);
                }
                return Err(e);
            },
        }
        t += 1;
    }
    // check every image record once
    let mut img_recs: Vec<CocoImgRec> = Vec::new();
    let mut u: usize = 0;
    while u < nimg
        invariant
            std_parts_ok(*doc, *f, *ims, *anns),
            nimg == ims@.len(),
            u <= nimg,
            img_recs@.len() == u as int,
            forall|k: int| 0 <= k < u ==> #[trigger] valid_coco_image(ims@[k]),
            forall|k: int|
                0 <= k < u ==> {
                    let v = coco_image_v(ims@[k]);
                    &&& (#[trigger] img_recs@[k]).id == v.id
                    &&& img_recs@[k].file_name@ == v.file_name
                    &&& img_recs@[k].width == v.width
                    &&& img_recs@[k].height == v.height
                    &&& img_recs@[k].width >= 1
                    &&& img_recs@[k].height >= 1
                },
        decreases nimg - u,
    {
        match extract_coco_image(&ims[u]) {
            Ok(rec) => {
                img_recs.push(rec);
            },
            Err(e) => {
                proof {
                    lemma_std_doc_valid(*doc, *f, *ims, *anns);
                }
                return Err(e);
            },
        }
        u += 1;
    }
    // assemble the unified images, the last record of an id winning
    let mut out: Vec<UnifiedImage> = Vec::new();
    let mut i: usize = 0;
    proof {
        assert(ims@.skip(0) =~= ims@);
        assert(out@.map_values(|im: UnifiedImage| im@) + spec_standard_images(ims@, anns@)
            =~= spec_standard_images(ims@, anns@));
    }
    while i < nimg
        invariant
            std_parts_ok(*doc, *f, *ims, *anns),
            nimg == ims@.len() == img_recs@.len(),
            nann == anns@.len() == ann_recs@.len(),
            i <= nimg,
            forall|k: int| 0 <= k < nimg ==> #[trigger] valid_coco_image(ims@[k]),
            forall|k: int|
                0 <= k < nimg ==> {
                    let v = coco_image_v(ims@[k]);
                    &&& (#[trigger] img_recs@[k]).id == v.id
                    &&& img_recs@[k].file_name@ == v.file_name
                    &&& img_recs@[k].width == v.width
                    &&& img_recs@[k].height == v.height
                    &&& img_recs@[k].width >= 1
                    &&& img_recs@[k].height >= 1
                },
            forall|k: int| 0 <= k < nann ==> #[trigger] valid_coco_ann(anns@[k]),
            forall|k: int| 0 <= k < nann ==> #[trigger] ann_recs@[k] == coco_ann_v(anns@[k]),
            forall|k: int|
                0 <= k < nann ==> {
                    &&& -MAX_COORD_MICRO <= (#[trigger] ann_recs@[k]).x <= MAX_COORD_MICRO
                    &&& -MAX_COORD_MICRO <= ann_recs@[k].y <= MAX_COORD_MICRO
                    &&& -MAX_COORD_MICRO <= ann_recs@[k].w <= MAX_COORD_MICRO
                    &&& -MAX_COORD_MICRO <= ann_recs@[k].h <= MAX_COORD_MICRO
                },
            out@.map_values(|im: UnifiedImage| im@) + spec_standard_images(
                ims@.skip(i as int),
                anns@,
            ) == spec_standard_images(ims@, anns@),
            forall|k: int| 0 <= k < out@.len() ==> (#[trigger] out@[k])@.wf(),
        decreases nimg - i,
    {
        // does a later record declare the same id?
        let mut dup = false;
        let mut t2: usize = i + 1;
        while t2 < nimg
            invariant
                nimg == img_recs@.len(),
                i < nimg,
                i < t2 <= nimg || (t2 == i + 1 && nimg <= i + 1),
                dup ==> exists|k: int|
                    i < k < nimg && (#[trigger] img_recs@[k]).id == img_recs@[i as int].id,
                !dup ==> forall|k: int|
                    i < k < t2 ==> (#[trigger] img_recs@[k]).id != img_recs@[i as int].id,
            decreases nimg - t2,
        {
            if img_recs[t2].id == img_recs[i].id {
                dup = true;
            }
            t2 += 1;
        }
        proof {
            let s = ims@.skip(i as int);
            assert(s[0] == ims@[i as int]);
            assert(s.drop_first() =~= ims@.skip(i as int + 1));
            if dup {
                let k = choose|k: int|
                    i < k < nimg && (#[trigger] img_recs@[k]).id == img_recs@[i as int].id;
                assert(s[k - i] == ims@[k]);
                assert(coco_image_v(s[k - i]).id == coco_image_v(s.first()).id);
                assert(later_dup(s));
            } else {
                if later_dup(s) {
                    let k = choose|k: int|
                        0 < k < s.len() && coco_image_v(#[trigger] s[k]).id == coco_image_v(
                            s.first(),
                        ).id;
                    assert(s[k] == ims@[i + k]);
                    assert(img_recs@[i + k].id == img_recs@[i as int].id);
                    assert(false);
                }
            }
        }
        if !dup {
            // gather the annotations that reference this image, in order
            let id = img_recs[i].id;
            let mut u_anns: Vec<UnifiedAnnotation> = Vec::new();
            let mut t3: usize = 0;
            while t3 < nann
                invariant
                    nann == anns@.len() == ann_recs@.len(),
                    t3 <= nann,
                    forall|k: int| 0 <= k < nann ==> #[trigger] valid_coco_ann(anns@[k]),
                    forall|k: int| 0 <= k < nann ==> #[trigger] ann_recs@[k] == coco_ann_v(
                        anns@[k],
                    ),
                    forall|k: int|
                        0 <= k < nann ==> {
                            &&& -MAX_COORD_MICRO <= (#[trigger] ann_recs@[k]).x <= MAX_COORD_MICRO
                            &&& -MAX_COORD_MICRO <= ann_recs@[k].y <= MAX_COORD_MICRO
                            &&& -MAX_COORD_MICRO <= ann_recs@[k].w <= MAX_COORD_MICRO
                            &&& -MAX_COORD_MICRO <= ann_recs@[k].h <= MAX_COORD_MICRO
                        },
                    u_anns@ == spec_anns_for(anns@.take(t3 as int), id),
                    forall|k: int| 0 <= k < u_anns@.len() ==> (#[trigger] u_anns@[k]).wf(),
                decreases nann - t3,
            {
                let a = ann_recs[t3];
                proof {
                    assert(anns@.take(t3 as int + 1).drop_last() =~= anns@.take(t3 as int));
                    assert(anns@.take(t3 as int + 1).last() == anns@[t3 as int]);
                }
                if a.image_id == id {
                    u_anns.push(
                        UnifiedAnnotation {
                            bbox: BBox { x1: a.x, y1: a.y, x2: a.x + a.w, y2: a.y + a.h },
                            category_id: a.category_id,
                        },
                    );
                }
                t3 += 1;
            }
            proof {
                assert(anns@.take(nann as int) =~= anns@);
            }
            let img = UnifiedImage {
                file_name: img_recs[i].file_name.clone(),
                width: img_recs[i].width,
                height: img_recs[i].height,
                annotations: u_anns,
            };
            proof {
                assert(img@ =~= unified_of_coco_image(ims@[i as int], anns@));
                let prev = out@.map_values(|im: UnifiedImage| im@);
                let one = seq![unified_of_coco_image(ims@[i as int], anns@)];
                assert(prev.push(img@) =~= prev + one);
                assert((prev + one) + spec_standard_images(ims@.skip(i as int + 1), anns@) =~= prev
                    + (one + spec_standard_images(ims@.skip(i as int + 1), anns@)));
            }
            let ghost prev_views = out@.map_values(|im: UnifiedImage| im@);
            out.push(img);
            proof {
                assert(out@.map_values(|im: UnifiedImage| im@) =~= prev_views.push(
                    out@.last()@,
                ));
            }
        }
        i += 1;
    }
    proof {
        assert(ims@.skip(nimg as int) =~= Seq::<Json>::empty());
        assert(out@.map_values(|im: UnifiedImage| im@) + Seq::<ImageView>::empty() =~= out@.map_values(
            |im: UnifiedImage| im@,
        ));
        lemma_std_doc_valid(*doc, *f, *ims, *anns);
    }
    Ok(out)
}

/// Decodes the full text of one standard-schema input file: the text must
/// read as one document, the document must be a valid standard document,
/// and the result is exactly that document's unified images.
pub fn parse_standard_format(content: &str) -> (r: Result<Vec<UnifiedImage>, ParseError>)
    ensures
        r matches Ok(imgs) ==> exists|doc: Json|
            {
                &&& spec_parse_json(content@) == Ok::<JVal, ParseError>(#[trigger] json_view(doc))
                &&& json_bounded(doc)
                &&& valid_standard_doc(doc)
                &&& imgs@.map_values(|im: UnifiedImage| im@) == spec_standard_doc_images(doc)
            },
        r matches Ok(imgs) ==> forall|i: int| 0 <= i < imgs@.len() ==> (#[trigger] imgs@[i])@.wf(),
        r matches Err(e) ==> spec_parse_json(content@) == Err::<JVal, ParseError>(e) || exists|
            doc: Json,
        |
            {
                &&& spec_parse_json(content@) == Ok::<JVal, ParseError>(#[trigger] json_view(doc))
                &&& json_bounded(doc)
                &&& !valid_standard_doc(doc)
            },
{
    let doc = match crate::json::parse_json(content) {
        Ok(d) => d,
        Err(e) => {
            return Err(e);
        },
    };
    let r = unified_of_standard(&doc);
    proof {
        if r is Ok {
            assert(valid_standard_doc(doc));
        } else {
            assert(!valid_standard_doc(doc));
        }
    }
    r
}

/// The ids of the records that survive deduplication, in output order.
pub open spec fn kept_ids(ims: Seq<Json>) -> Seq<u32>
    decreases ims.len(),
{
    if ims.len() == 0 {
        Seq::empty()
    } else {
        let rest = kept_ids(ims.drop_first());
        if later_dup(ims) {
            rest
        } else {
            seq![coco_image_v(ims.first()).id] + rest
        }
    }
}

/// Law: every image id declared in a standard document appears exactly once
/// in the unified output, and the image carrying it holds exactly the
/// annotations whose referenced image id matches.
pub proof fn lemma_standard_images_complete(ims: Seq<Json>, anns: Seq<Json>)
    ensures
        ({
            let out = spec_standard_images(ims, anns);
            let ids = kept_ids(ims);
            &&& out.len() == ids.len()
            &&& forall|j: int, j2: int| 0 <= j < j2 < ids.len() ==> ids[j] != ids[j2]
            &&& forall|id: u32|
                ids.contains(id) <==> exists|i: int|
                    0 <= i < ims.len() && coco_image_v(#[trigger] ims[i]).id == id
            &&& forall|j: int|
                0 <= j < ids.len() ==> (#[trigger] out[j]).annotations == spec_anns_for(
                    anns,
                    ids[j],
                )
        }),
    decreases ims.len(),
{
    if ims.len() > 0 {
        lemma_standard_images_complete(ims.drop_first(), anns);
        let tail = ims.drop_first();
        let out = spec_standard_images(ims, anns);
        let ids = kept_ids(ims);
        let out_t = spec_standard_images(tail, anns);
        let ids_t = kept_ids(tail);
        assert forall|i: int| 0 <= i < tail.len() implies tail[i] == ims[i + 1] by {}
        if later_dup(ims) {
            let k0 = choose|k: int|
                0 < k < ims.len() && coco_image_v(#[trigger] ims[k]).id == coco_image_v(
                    ims.first(),
                ).id;
            assert forall|id: u32| ids.contains(id) implies exists|i: int|
                0 <= i < ims.len() && coco_image_v(#[trigger] ims[i]).id == id by {
                let i0 = choose|i: int|
                    0 <= i < tail.len() && coco_image_v(#[trigger] tail[i]).id == id;
                assert(coco_image_v(ims[i0 + 1]).id == id);
            }
            assert forall|id: u32|
                (exists|i: int|
                    0 <= i < ims.len() && coco_image_v(#[trigger] ims[i]).id
                        == id) implies ids.contains(id) by {
                let i0 = choose|i: int|
                    0 <= i < ims.len() && coco_image_v(#[trigger] ims[i]).id == id;
                if i0 == 0 {
                    assert(coco_image_v(tail[k0 - 1]).id == id);
                } else {
                    assert(coco_image_v(tail[i0 - 1]).id == id);
                }
            }
        } else {
            assert(out =~= seq![unified_of_coco_image(ims.first(), anns)] + out_t);
            assert(ids =~= seq![coco_image_v(ims.first()).id] + ids_t);
            let myid = coco_image_v(ims.first()).id;
            // the surviving front id occurs in no later record, hence not in
            // the tail's kept ids
            assert forall|j2: int| 0 <= j2 < ids_t.len() implies ids_t[j2] != myid by {
                if ids_t[j2] == myid {
                    assert(ids_t.contains(myid));
                    let i0 = choose|i: int|
                        0 <= i < tail.len() && coco_image_v(#[trigger] tail[i]).id == myid;
                    assert(coco_image_v(ims[i0 + 1]).id == myid);
                    assert(later_dup(ims));
                }
            }
            assert forall|id: u32| ids.contains(id) implies exists|i: int|
                0 <= i < ims.len() && coco_image_v(#[trigger] ims[i]).id == id by {
                if id == myid {
                    assert(coco_image_v(ims[0]).id == id);
                } else {
                    let j0 = choose|j0: int| 0 <= j0 < ids.len() && ids[j0] == id;
                    assert(ids_t[j0 - 1] == id);
                    assert(ids_t.contains(id));
                    let i0 = choose|i: int|
                        0 <= i < tail.len() && coco_image_v(#[trigger] tail[i]).id == id;
                    assert(coco_image_v(ims[i0 + 1]).id == id);
                }
            }
            assert forall|id: u32|
                (exists|i: int|
                    0 <= i < ims.len() && coco_image_v(#[trigger] ims[i]).id
                        == id) implies ids.contains(id) by {
                let i0 = choose|i: int|
                    0 <= i < ims.len() && coco_image_v(#[trigger] ims[i]).id == id;
                if i0 == 0 {
                    assert(ids[0] == id);
                } else {
                    assert(coco_image_v(tail[i0 - 1]).id == id);
                    assert(ids_t.contains(id));
                    let j0 = choose|j0: int| 0 <= j0 < ids_t.len() && ids_t[j0] == id;
                    assert(ids[j0 + 1] == id);
                }
            }
            assert forall|j: int| 0 <= j < ids.len() implies (#[trigger] out[j]).annotations
                == spec_anns_for(anns, ids[j]) by {
                if j > 0 {
                    assert(out[j] == out_t[j - 1]);
                    assert(ids[j] == ids_t[j - 1]);
                }
            }
        }
    }
}

/// A coordinate pair `[a, b]`, if in shape.
pub open spec fn pair_of(j: Json) -> Option<(i64, i64)> {
    match j {
        Json::Arr(p) => if p@.len() == 2 {
            match (p@[0], p@[1]) {
                (
                    Json::Num { micro: a, big: false, .. },
                    Json::Num { micro: b, big: false, .. },
                ) => Some((a, b)),
                _ => None,
            }
        } else {
            None
        },
        _ => None,
    }
}

/// A DAMM box `[[x1, y1], [x2, y2]]`, if in shape.
pub open spec fn damm_box_of(f: Seq<(String, Json)>) -> Option<BBox> {
    match obj_get(f, "bbox"@) {
        Some(Json::Arr(b)) => if b@.len() == 2 {
            match (pair_of(b@[0]), pair_of(b@[1])) {
                (Some(p), Some(q)) => Some(BBox { x1: p.0, y1: p.1, x2: q.0, y2: q.1 }),
                _ => None,
            }
        } else {
            None
        },
        _ => None,
    }
}

/// A list whose entries are all numbers.
pub open spec fn row_is_nums(j: Json) -> bool {
    match j {
        Json::Arr(xs) => forall|i: int| 0 <= i < xs@.len() ==> (#[trigger] xs@[i]) is Num,
        _ => false,
    }
}

/// Every entry of the sequence is a list of numbers.
pub open spec fn rows_are_nums(s: Seq<Json>) -> bool {
    forall|i: int| 0 <= i < s.len() ==> row_is_nums(#[trigger] s[i])
}

/// A segmentation value: null or a list of number lists.
pub open spec fn seg_val_ok(v: Json) -> bool {
    match v {
        Json::Null => true,
        Json::Arr(rows) => rows_are_nums(rows@),
        _ => false,
    }
}

/// A segmentation field: absent, or a value in shape.
pub open spec fn seg_ok(o: Option<Json>) -> bool {
    match o {
        None => true,
        Some(v) => seg_val_ok(v),
    }
}

/// A DAMM annotation: a two-pair box, a `u32` category, a box-mode that is
/// absent or a string, and a segmentation in list-of-number-lists shape.
pub open spec fn valid_damm_ann(j: Json) -> bool {
    &&& j matches Json::Obj(f)
    &&& get_u32(f@, "category_id"@) is Some
    &&& damm_box_of(f@) is Some
    &&& match obj_get(f@, "bbox_mode"@) {
        None => true,
        Some(Json::Null) => true,
        Some(Json::Str(s)) => true,
        _ => false,
    }
    &&& seg_ok(obj_get(f@, "segmentation"@))
}

pub open spec fn damm_ann_v(j: Json) -> UnifiedAnnotation
    recommends
        valid_damm_ann(j),
{
    let f = j->Obj_0;
    UnifiedAnnotation { bbox: damm_box_of(f@)->0, category_id: get_u32(f@, "category_id"@)->0 }
}

/// The converted annotations of one DAMM image record, in input order.
pub open spec fn spec_damm_anns(a: Seq<Json>) -> Seq<UnifiedAnnotation>
    decreases a.len(),
{
    if a.len() == 0 {
        Seq::empty()
    } else {
        spec_damm_anns(a.drop_last()).push(damm_ann_v(a.last()))
    }
}

/// A DAMM image record: name, positive dimensions, an id, and a valid
/// annotation list.
pub open spec fn valid_damm_image(j: Json) -> bool {
    &&& j matches Json::Obj(f)
    &&& get_str(f@, "file_name"@) is Some
    &&& (get_u32(f@, "width"@) matches Some(w) && w >= 1)
    &&& (get_u32(f@, "height"@) matches Some(h) && h >= 1)
    &&& get_u32(f@, "image_id"@) is Some
    &&& obj_get(f@, "annotations"@) matches Some(Json::Arr(a))
    &&& forall|k: int| 0 <= k < a@.len() ==> #[trigger] valid_damm_ann(a@[k])
}

pub open spec fn damm_image_v(j: Json) -> ImageView
    recommends
        valid_damm_image(j),
{
    let f = j->Obj_0;
    ImageView {
        file_name: get_str(f@, "file_name"@)->0,
        width: get_u32(f@, "width"@)->0,
        height: get_u32(f@, "height"@)->0,
        annotations: spec_damm_anns(obj_get(f@, "annotations"@)->0->Arr_0@),
    }
}

/// The unified images of a DAMM document, one per entry, in order.
pub open spec fn spec_damm_images(arr: Seq<Json>) -> Seq<ImageView>
    decreases arr.len(),
{
    if arr.len() == 0 {
        Seq::empty()
    } else {
        spec_damm_images(arr.drop_last()).push(damm_image_v(arr.last()))
    }
}

/// A DAMM document: an object whose `annotations` list holds valid image
/// records.
pub open spec fn valid_damm_doc(doc: Json) -> bool {
    &&& doc matches Json::Obj(f)
    &&& obj_get(f@, "annotations"@) matches Some(Json::Arr(arr))
    &&& forall|k: int| 0 <= k < arr@.len() ==> #[trigger] valid_damm_image(arr@[k])
}

pub open spec fn spec_damm_doc_images(doc: Json) -> Seq<ImageView>
    recommends
        valid_damm_doc(doc),
{
    spec_damm_images(obj_get(doc->Obj_0@, "annotations"@)->0->Arr_0@)
}

/// Checks that a value is a list of numbers.
fn is_num_row(j: &Json) -> (r: bool)
    ensures
        r == row_is_nums(*j),
{
    match j {
        Json::Arr(xs) => {
            let n = xs.len();
            let mut i: usize = 0;
            while i < n
                invariant
                    *j == Json::Arr(*xs),
                    n == xs@.len(),
                    i <= n,
                    forall|k: int| 0 <= k < i ==> (#[trigger] xs@[k]) is Num,
                decreases n - i,
            {
                match &xs[i] {
                    Json::Num { .. } => {},
                    _ => {
                        return false;
                    },
                }
                i += 1;
            }
            true
        },
        _ => false,
    }
}

/// Reads a two-scalar coordinate pair.
fn extract_pair(j: &Json) -> (r: Result<(i64, i64), ParseError>)
    requires
        json_bounded(*j),
    ensures
        (r is Ok) == (pair_of(*j) is Some),
        r matches Ok(p) ==> {
            &&& Some(p) == pair_of(*j)
            &&& -MAX_COORD_MICRO <= p.0 <= MAX_COORD_MICRO
            &&& -MAX_COORD_MICRO <= p.1 <= MAX_COORD_MICRO
        },
{
    let p = match j {
        Json::Arr(p) => p,
        _ => {
            return Err(ParseError::WrongType);
        },
    };
    if p.len() != 2 {
        return Err(ParseError::BadBoxArity);
    }
    proof {
        lemma_seq_bounded_index(p@, 0);
        lemma_seq_bounded_index(p@, 1);
    }
    let a = match &p[0] {
        Json::Num { micro, big, .. } => {
            if *big {
                return Err(ParseError::NumberTooLarge);
            }
            *micro
        },
        _ => {
            return Err(ParseError::WrongType);
        },
    };
    let b = match &p[1] {
        Json::Num { micro, big, .. } => {
            if *big {
                return Err(ParseError::NumberTooLarge);
            }
            *micro
        },
        _ => {
            return Err(ParseError::WrongType);
        },
    };
    Ok((a, b))
}

/// Decodes and checks one DAMM annotation record.
fn extract_damm_ann(j: &Json) -> (r: Result<UnifiedAnnotation, ParseError>)
    requires
        json_bounded(*j),
    ensures
        (r is Ok) == valid_damm_ann(*j),
        r matches Ok(a) ==> a == damm_ann_v(*j) && a.wf(),
{
    let f = match j {
        Json::Obj(f) => f,
        _ => {
            return Err(ParseError::WrongType);
        },
    };
    let category_id = match obj_get_ref(f, "category_id") {
        Some(v) => match num_as_u32(v) {
            Some(x) => x,
            None => {
                return Err(ParseError::WrongType);
            },
        },
        None => {
            return Err(ParseError::MissingField);
        },
    };
    match obj_get_ref(f, "bbox_mode") {
        None => {},
        Some(v) => match v {
            Json::Null => {},
            Json::Str(_) => {},
            _ => {
                return Err(ParseError::WrongType);
            },
        },
    }
    match obj_get_ref(f, "segmentation") {
        None => {},
        Some(v) => match v {
            Json::Null => {},
            Json::Arr(rows) => {
                let nr = rows.len();
                let mut t: usize = 0;
                while t < nr
                    invariant
                        *j == Json::Obj(*f),
                        obj_get(f@, "segmentation"@) == Some(Json::Arr(*rows)),
                        nr == rows@.len(),
                        t <= nr,
                        forall|k: int| 0 <= k < t ==> row_is_nums(#[trigger] rows@[k]),
                    decreases nr - t,
                {
                    if !is_num_row(&rows[t]) {
                        proof {
                            if seg_ok(obj_get(f@, "segmentation"@)) {
                                assert(rows_are_nums(rows@));
                                assert(row_is_nums(rows@[t as int]));
                            }
                        }
                        return Err(ParseError::WrongType);
                    }
                    t += 1;
                }
            },
            _ => {
                return Err(ParseError::WrongType);
            },
        },
    }
    let b = match obj_get_ref(f, "bbox") {
        Some(v) => match v {
            Json::Arr(b) => b,
            _ => {
                return Err(ParseError::WrongType);
            },
        },
        None => {
            return Err(ParseError::MissingField);
        },
    };
    if b.len() != 2 {
        return Err(ParseError::BadBoxArity);
    }
    proof {
        lemma_obj_get_in(f@, "bbox"@);
        let vv = obj_get(f@, "bbox"@)->0;
        let k = choose|k: int| 0 <= k < f@.len() && (#[trigger] f@[k]).1 == vv;
        lemma_fields_bounded_index(f@, k);
        assert(json_bounded(Json::Arr(*b)));
        lemma_seq_bounded_index(b@, 0);
        lemma_seq_bounded_index(b@, 1);
    }
    let p = match extract_pair(&b[0]) {
        Ok(p) => p,
        Err(e) => {
            return Err(e);
        },
    };
    let q = match extract_pair(&b[1]) {
        Ok(q) => q,
        Err(e) => {
            return Err(e);
        },
    };
    Ok(
        UnifiedAnnotation {
            bbox: BBox { x1: p.0, y1: p.1, x2: q.0, y2: q.1 },
            category_id,
        },
    )
}

/// Decodes and checks one DAMM image record.
fn extract_damm_image(j: &Json) -> (r: Result<UnifiedImage, ParseError>)
    requires
        json_bounded(*j),
    ensures
        (r is Ok) == valid_damm_image(*j),
        r matches Ok(im) ==> im@ == damm_image_v(*j) && im@.wf(),
{
    let f = match j {
        Json::Obj(f) => f,
        _ => {
            return Err(ParseError::WrongType);
        },
    };
    let file_name = match obj_get_ref(f, "file_name") {
        Some(v) => match v {
            Json::Str(s) => s.clone(),
            _ => {
                return Err(ParseError::WrongType);
            },
        },
        None => {
            return Err(ParseError::MissingField);
        },
    };
    let width = match obj_get_ref(f, "width") {
        Some(v) => match num_as_u32(v) {
            Some(x) => x,
            None => {
                return Err(ParseError::WrongType);
            },
        },
        None => {
            return Err(ParseError::MissingField);
        },
    };
    let height = match obj_get_ref(f, "height") {
        Some(v) => match num_as_u32(v) {
            Some(x) => x,
            None => {
                return Err(ParseError::WrongType);
            },
        },
        None => {
            return Err(ParseError::MissingField);
        },
    };
    if width == 0 || height == 0 {
        return Err(ParseError::BadDimension);
    }
    match obj_get_ref(f, "image_id") {
        Some(v) => {
            if num_as_u32(v).is_none() {
                return Err(ParseError::WrongType);
            }
        },
        None => {
            return Err(ParseError::MissingField);
        },
    }
    let anns = match obj_get_ref(f, "annotations") {
        Some(v) => match v {
            Json::Arr(a) => a,
            _ => {
                return Err(ParseError::WrongType);
            },
        },
        None => {
            return Err(ParseError::MissingField);
        },
    };
    proof {
        lemma_obj_get_in(f@, "annotations"@);
        let vv = obj_get(f@, "annotations"@)->0;
        let k = choose|k: int| 0 <= k < f@.len() && (#[trigger] f@[k]).1 == vv;
        lemma_fields_bounded_index(f@, k);
        assert(json_bounded(Json::Arr(*anns)));
    }
    let nann = anns.len();
    let mut u_anns: Vec<UnifiedAnnotation> = Vec::new();
    let mut t: usize = 0;
    while t < nann
        invariant
            *j == Json::Obj(*f),
            obj_get(f@, "annotations"@) == Some(Json::Arr(*anns)),
            nann == anns@.len(),
            t <= nann,
            json_bounded(Json::Arr(*anns)),
            forall|k: int| 0 <= k < t ==> #[trigger] valid_damm_ann(anns@[k]),
            u_anns@ == spec_damm_anns(anns@.take(t as int)),
            forall|k: int| 0 <= k < u_anns@.len() ==> (#[trigger] u_anns@[k]).wf(),
        decreases nann - t,
    {
        proof {
            lemma_seq_bounded_index(anns@, t as int);
            assert(anns@.take(t as int + 1).drop_last() =~= anns@.take(t as int));
            assert(anns@.take(t as int + 1).last() == anns@[t as int]);
        }
        match extract_damm_ann(&anns[t]) {
            Ok(a) => {
                u_anns.push(a);
            },
            Err(e) => {
                return Err(e);
            },
        }
        t += 1;
    }
    proof {
        assert(anns@.take(nann as int) =~= anns@);
    }
    let im = UnifiedImage { file_name, width, height, annotations: u_anns };
    proof {
        assert(im@ =~= damm_image_v(*j));
    }
    Ok(im)
}

/// The document is an object whose annotation list has been taken apart.
spec fn damm_parts_ok(doc: Json, f: Vec<(String, Json)>, arr: Vec<Json>) -> bool {
    &&& doc == Json::Obj(f)
    &&& obj_get(f@, "annotations"@) == Some(Json::Arr(arr))
}

/// With the parts named, document validity is validity of every record.
proof fn lemma_damm_doc_valid(doc: Json, f: Vec<(String, Json)>, arr: Vec<Json>)
    requires
        damm_parts_ok(doc, f, arr),
    ensures
        valid_damm_doc(doc) <==> forall|i: int|
            0 <= i < arr@.len() ==> #[trigger] valid_damm_image(arr@[i]),
        spec_damm_doc_images(doc) == spec_damm_images(arr@),
{
}

/// Decodes a DAMM document that has already been read into a tree.
pub fn unified_of_damm(doc: &Json) -> (r: Result<Vec<UnifiedImage>, ParseError>)
    requires
        json_bounded(*doc),
    ensures
        (r is Ok) == valid_damm_doc(*doc),
        r matches Ok(imgs) ==> {
            &&& imgs@.map_values(|im: UnifiedImage| im@) == spec_damm_doc_images(*doc)
            &&& forall|i: int| 0 <= i < imgs@.len() ==> (#[trigger] imgs@[i])@.wf()
        },
{
    let f = match doc {
        Json::Obj(f) => f,
        _ => {
            return Err(ParseError::WrongType);
        },
    };
    let arr = match obj_get_ref(f, "annotations") {
        Some(v) => match v {
            Json::Arr(a) => a,
            _ => {
                return Err(ParseError::WrongType);
            },
        },
        None => {
            return Err(ParseError::MissingField);
        },
    };
    proof {
        lemma_obj_get_in(f@, "annotations"@);
        let vv = obj_get(f@, "annotations"@)->0;
        let k = choose|k: int| 0 <= k < f@.len() && (#[trigger] f@[k]).1 == vv;
        lemma_fields_bounded_index(f@, k);
        assert(json_bounded(Json::Arr(*arr)));
        assert(damm_parts_ok(*doc, *f, *arr));
    }
    let n = arr.len();
    let mut out: Vec<UnifiedImage> = Vec::new();
    let mut i: usize = 0;
    while i < n
        invariant
            damm_parts_ok(*doc, *f, *arr),
            n == arr@.len(),
            i <= n,
            json_bounded(Json::Arr(*arr)),
            forall|k: int| 0 <= k < i ==> #[trigger] valid_damm_image(arr@[k]),
            out@.map_values(|im: UnifiedImage| im@) == spec_damm_images(arr@.take(i as int)),
            forall|k: int| 0 <= k < out@.len() ==> (#[trigger] out@[k])@.wf(),
        decreases n - i,
    {
        proof {
            lemma_seq_bounded_index(arr@, i as int);
            assert(arr@.take(i as int + 1).drop_last() =~= arr@.take(i as int));
            assert(arr@.take(i as int + 1).last() == arr@[i as int]);
        }
        match extract_damm_image(&arr[i]) {
            Ok(im) => {
                let ghost prev = out@.map_values(|im2: UnifiedImage| im2@);
                out.push(im);
                proof {
                    assert(out@.map_values(|im2: UnifiedImage| im2@) =~= prev.push(out@.last()@));
                }
            },
            Err(e) => {
                proof {
                    lemma_damm_doc_valid(*doc, *f, *arr);
                }
                return Err(e);
            },
        }
        i += 1;
    }
    proof {
        assert(arr@.take(n as int) =~= arr@);
        lemma_damm_doc_valid(*doc, *f, *arr);
    }
    Ok(out)
}

/// Decodes the full text of one DAMM-schema input file: the text must read
/// as one document, the document must be a valid DAMM document, and the
/// result is exactly that document's unified images.
pub fn parse_damm_format(content: &str) -> (r: Result<Vec<UnifiedImage>, ParseError>)
    ensures
        r matches Ok(imgs) ==> exists|doc: Json|
            {
                &&& spec_parse_json(content@) == Ok::<JVal, ParseError>(#[trigger] json_view(doc))
                &&& json_bounded(doc)
                &&& valid_damm_doc(doc)
                &&& imgs@.map_values(|im: UnifiedImage| im@) == spec_damm_doc_images(doc)
            },
        r matches Ok(imgs) ==> forall|i: int| 0 <= i < imgs@.len() ==> (#[trigger] imgs@[i])@.wf(),
        r matches Err(e) ==> spec_parse_json(content@) == Err::<JVal, ParseError>(e) || exists|
            doc: Json,
        |
            {
                &&& spec_parse_json(content@) == Ok::<JVal, ParseError>(#[trigger] json_view(doc))
                &&& json_bounded(doc)
                &&& !valid_damm_doc(doc)
            },
{
    let doc = match crate::json::parse_json(content) {
        Ok(d) => d,
        Err(e) => {
            return Err(e);
        },
    };
    let r = unified_of_damm(&doc);
    proof {
        if r is Ok {
            assert(valid_damm_doc(doc));
        } else {
            assert(!valid_damm_doc(doc));
        }
    }
    r
}

/// Law: a DAMM document yields exactly one unified image per entry of its
/// top-level annotation list, in the same relative order.
pub proof fn lemma_damm_order(arr: Seq<Json>)
    ensures
        spec_damm_images(arr).len() == arr.len(),
        forall|i: int| 0 <= i < arr.len() ==> spec_damm_images(arr)[i] == damm_image_v(
            #[trigger] arr[i],
        ),
    decreases arr.len(),
{
    if arr.len() > 0 {
        lemma_damm_order(arr.drop_last());
        assert forall|i: int| 0 <= i < arr.len() implies spec_damm_images(arr)[i] == damm_image_v(
            arr[i],
        ) by {
            if i < arr.len() - 1 {
                assert(arr.drop_last()[i] == arr[i]);
            }
        }
    }
}

} // verus!
