use coco_to_yolo::model::ParseError;
use coco_to_yolo::schema::{parse_damm_format, parse_standard_format};

fn standard_doc() -> String {
    String::from(
        r#"{
            "images": [
                {"id": 1, "file_name": "img1.jpg", "width": 100, "height": 100},
                {"id": 2, "file_name": "img2.jpg", "width": 200, "height": 200}
            ],
            "annotations": [
                {"id": 10, "image_id": 1, "category_id": 3, "bbox": [10, 10, 20, 20], "area": 400.0}
            ]
        }"#,
    )
}

#[test]
fn standard_basic_shapes() {
    let imgs = parse_standard_format(&standard_doc()).unwrap();
    assert_eq!(imgs.len(), 2);
    assert_eq!(imgs[0].file_name, "img1.jpg");
    assert_eq!(imgs[0].width, 100);
    assert_eq!(imgs[0].height, 100);
    assert_eq!(imgs[0].annotations.len(), 1);
    let ann = &imgs[0].annotations[0];
    assert_eq!(ann.category_id, 3);
    // [x, y, w, h] becomes corners, in micro units
    assert_eq!(ann.bbox.x1, 10_000_000);
    assert_eq!(ann.bbox.y1, 10_000_000);
    assert_eq!(ann.bbox.x2, 30_000_000);
    assert_eq!(ann.bbox.y2, 30_000_000);
    // an image without annotations is kept, with an empty list
    assert_eq!(imgs[1].file_name, "img2.jpg");
    assert_eq!(imgs[1].annotations.len(), 0);
}

#[test]
fn standard_duplicate_id_keeps_last() {
    let content = r#"{
        "images": [
            {"id": 1, "file_name": "old.jpg", "width": 10, "height": 10},
            {"id": 1, "file_name": "new.jpg", "width": 20, "height": 20}
        ],
        "annotations": []
    }"#;
    let imgs = parse_standard_format(content).unwrap();
    assert_eq!(imgs.len(), 1);
    assert_eq!(imgs[0].file_name, "new.jpg");
    assert_eq!(imgs[0].width, 20);
}

#[test]
fn standard_annotation_order_kept() {
    let content = r#"{
        "images": [{"id": 7, "file_name": "a.jpg", "width": 10, "height": 10}],
        "annotations": [
            {"id": 1, "image_id": 7, "category_id": 5, "bbox": [1, 1, 1, 1], "area": 1},
            {"id": 2, "image_id": 8, "category_id": 6, "bbox": [2, 2, 2, 2], "area": 4},
            {"id": 3, "image_id": 7, "category_id": 4, "bbox": [3, 3, 3, 3], "area": 9}
        ]
    }"#;
    let imgs = parse_standard_format(content).unwrap();
    assert_eq!(imgs.len(), 1);
    let cats: Vec<u32> = imgs[0].annotations.iter().map(|a| a.category_id).collect();
    assert_eq!(cats, vec![5, 4]);
}

#[test]
fn standard_missing_field() {
    let content = r#"{"annotations": []}"#;
    assert_eq!(parse_standard_format(content).unwrap_err(), ParseError::MissingField);
    let no_name = r#"{
        "images": [{"id": 1, "width": 10, "height": 10}],
        "annotations": []
    }"#;
    assert_eq!(parse_standard_format(no_name).unwrap_err(), ParseError::MissingField);
}

#[test]
fn standard_wrong_type() {
    let content = r#"{"images": 5, "annotations": []}"#;
    assert_eq!(parse_standard_format(content).unwrap_err(), ParseError::WrongType);
    let bad_width = r#"{
        "images": [{"id": 1, "file_name": "a.jpg", "width": "wide", "height": 10}],
        "annotations": []
    }"#;
    assert_eq!(parse_standard_format(bad_width).unwrap_err(), ParseError::WrongType);
    let frac_id = r#"{
        "images": [{"id": 1.5, "file_name": "a.jpg", "width": 10, "height": 10}],
        "annotations": []
    }"#;
    assert_eq!(parse_standard_format(frac_id).unwrap_err(), ParseError::WrongType);
}

#[test]
fn standard_bad_box_arity() {
    let content = r#"{
        "images": [{"id": 1, "file_name": "a.jpg", "width": 10, "height": 10}],
        "annotations": [
            {"id": 1, "image_id": 1, "category_id": 0, "bbox": [1, 2, 3], "area": 1}
        ]
    }"#;
    assert_eq!(parse_standard_format(content).unwrap_err(), ParseError::BadBoxArity);
}

#[test]
fn standard_zero_dimension() {
    let content = r#"{
        "images": [{"id": 1, "file_name": "a.jpg", "width": 0, "height": 10}],
        "annotations": []
    }"#;
    assert_eq!(parse_standard_format(content).unwrap_err(), ParseError::BadDimension);
}

#[test]
fn syntax_error() {
    assert_eq!(parse_standard_format("not structured").unwrap_err(), ParseError::Syntax);
    assert_eq!(parse_standard_format("{\"a\": }").unwrap_err(), ParseError::Syntax);
    assert_eq!(parse_standard_format("{} trailing").unwrap_err(), ParseError::Syntax);
}

#[test]
fn big_numbers_in_discarded_fields_pass() {
    let content = r#"{"images": [], "annotations": [], "spare": 123456789123456789123456789}"#;
    assert_eq!(parse_standard_format(content).unwrap().len(), 0);
    let area_big = r#"{
        "images": [{"id": 1, "file_name": "a.jpg", "width": 10, "height": 10}],
        "annotations": [
            {"id": 1, "image_id": 1, "category_id": 0, "bbox": [1, 1, 1, 1], "area": 1e300}
        ]
    }"#;
    assert_eq!(parse_standard_format(area_big).unwrap().len(), 1);
}

#[test]
fn big_coordinate_rejected() {
    let content = r#"{
        "images": [{"id": 1, "file_name": "a.jpg", "width": 10, "height": 10}],
        "annotations": [
            {"id": 1, "image_id": 1, "category_id": 0, "bbox": [1e300, 1, 1, 1], "area": 1}
        ]
    }"#;
    assert_eq!(parse_standard_format(content).unwrap_err(), ParseError::NumberTooLarge);
}

#[test]
fn depth_limit() {
    let mut content = String::new();
    for _ in 0..200 {
        content.push('[');
    }
    for _ in 0..200 {
        content.push(']');
    }
    assert_eq!(parse_standard_format(&content).unwrap_err(), ParseError::Depth);
}

#[test]
fn fractional_coordinates_round_to_micro() {
    let content = r#"{
        "images": [{"id": 1, "file_name": "a.jpg", "width": 10, "height": 10}],
        "annotations": [
            {"id": 1, "image_id": 1, "category_id": 0,
             "bbox": [0.5, 1.25, 2.0000005, 0.1234567], "area": 1}
        ]
    }"#;
    let imgs = parse_standard_format(content).unwrap();
    let b = &imgs[0].annotations[0].bbox;
    assert_eq!(b.x1, 500_000);
    assert_eq!(b.y1, 1_250_000);
    // the seventh fractional digit rounds half away from zero, then the
    // width and height are added onto the corner
    assert_eq!(b.x2, 2_500_001);
    assert_eq!(b.y2, 1_373_457);
}

fn damm_doc() -> String {
    String::from(
        r#"{
            "annotations": [
                {"file_name": "b.jpg", "height": 50, "width": 40, "image_id": 2,
                 "annotations": [
                    {"bbox": [[1, 2], [3, 4]], "category_id": 9,
                     "bbox_mode": "BoxMode.XYXY_ABS",
                     "segmentation": [[1.0, 2.0], [3.0, 4.0]]}
                 ]},
                {"file_name": "a.jpg", "height": 60, "width": 70, "image_id": 1,
                 "annotations": []}
            ]
        }"#,
    )
}

#[test]
fn damm_basic_shapes() {
    let imgs = parse_damm_format(&damm_doc()).unwrap();
    // one unified image per entry, in the same relative order
    assert_eq!(imgs.len(), 2);
    assert_eq!(imgs[0].file_name, "b.jpg");
    assert_eq!(imgs[1].file_name, "a.jpg");
    assert_eq!(imgs[0].width, 40);
    assert_eq!(imgs[0].height, 50);
    let ann = &imgs[0].annotations[0];
    assert_eq!(ann.category_id, 9);
    // [[x1, y1], [x2, y2]] keeps its corners
    assert_eq!(ann.bbox.x1, 1_000_000);
    assert_eq!(ann.bbox.y1, 2_000_000);
    assert_eq!(ann.bbox.x2, 3_000_000);
    assert_eq!(ann.bbox.y2, 4_000_000);
    assert_eq!(imgs[1].annotations.len(), 0);
}

#[test]
fn damm_box_arity() {
    let one_pair = r#"{
        "annotations": [
            {"file_name": "a.jpg", "height": 5, "width": 5, "image_id": 1,
             "annotations": [{"bbox": [[1, 2]], "category_id": 0}]}
        ]
    }"#;
    assert_eq!(parse_damm_format(one_pair).unwrap_err(), ParseError::BadBoxArity);
    let long_pair = r#"{
        "annotations": [
            {"file_name": "a.jpg", "height": 5, "width": 5, "image_id": 1,
             "annotations": [{"bbox": [[1, 2, 3], [4, 5]], "category_id": 0}]}
        ]
    }"#;
    assert_eq!(parse_damm_format(long_pair).unwrap_err(), ParseError::BadBoxArity);
}

#[test]
fn damm_requires_image_id() {
    let content = r#"{
        "annotations": [
            {"file_name": "a.jpg", "height": 5, "width": 5, "annotations": []}
        ]
    }"#;
    assert_eq!(parse_damm_format(content).unwrap_err(), ParseError::MissingField);
}

#[test]
fn damm_bad_segmentation() {
    let content = r#"{
        "annotations": [
            {"file_name": "a.jpg", "height": 5, "width": 5, "image_id": 1,
             "annotations": [{"bbox": [[1, 2], [3, 4]], "category_id": 0,
                              "segmentation": "oops"}]}
        ]
    }"#;
    assert_eq!(parse_damm_format(content).unwrap_err(), ParseError::WrongType);
}

#[test]
fn string_escapes() {
    let content = r#"{
        "images": [{"id": 1, "file_name": "dir\\img \"one\".jpg", "width": 10, "height": 10}],
        "annotations": []
    }"#;
    let imgs = parse_standard_format(content).unwrap();
    assert_eq!(imgs[0].file_name, "dir\\img \"one\".jpg");
}

#[test]
fn scalar_values_and_whitespace() {
    let content = "\r\n\t {\"images\" : [ ] ,\n \"annotations\":[],\n \"flag\": true, \"other\": false, \"gone\": null}\n";
    assert_eq!(parse_standard_format(content).unwrap().len(), 0);
}

#[test]
fn exponent_notation_values() {
    let content = r#"{
        "images": [{"id": 1, "file_name": "a.jpg", "width": 10, "height": 10}],
        "annotations": [
            {"id": 1, "image_id": 1, "category_id": 0,
             "bbox": [1e2, 0.5e1, 25E-1, 2e+1], "area": 1}
        ]
    }"#;
    let imgs = parse_standard_format(content).unwrap();
    let b = &imgs[0].annotations[0].bbox;
    assert_eq!(b.x1, 100_000_000);
    assert_eq!(b.y1, 5_000_000);
    assert_eq!(b.x2, 100_000_000 + 2_500_000);
    assert_eq!(b.y2, 5_000_000 + 20_000_000);
}

#[test]
fn exponent_number_is_not_integral() {
    // a dimension written in exponent form is not an integer field
    let content = r#"{
        "images": [{"id": 1, "file_name": "a.jpg", "width": 1e1, "height": 10}],
        "annotations": []
    }"#;
    assert_eq!(parse_standard_format(content).unwrap_err(), ParseError::WrongType);
}

#[test]
fn unicode_escapes() {
    let content = r#"{
        "images": [{"id": 1, "file_name": "caf\u00e9 \ud83d\ude00.jpg",
                    "width": 10, "height": 10}],
        "annotations": []
    }"#;
    let imgs = parse_standard_format(content).unwrap();
    assert_eq!(imgs[0].file_name, "caf\u{e9} \u{1F600}.jpg");
    // a lone high surrogate is refused
    let lone = r#"{"images": [], "annotations": [], "s": "\ud800"}"#;
    assert_eq!(parse_standard_format(lone).unwrap_err(), ParseError::Syntax);
}

#[test]
fn leading_zero_rejected() {
    let content = r#"{"images": [], "annotations": [], "x": 01}"#;
    assert_eq!(parse_standard_format(content).unwrap_err(), ParseError::Syntax);
}

#[test]
fn id_at_u32_boundary() {
    let ok = r#"{
        "images": [{"id": 4294967295, "file_name": "a.jpg", "width": 1, "height": 1}],
        "annotations": []
    }"#;
    assert_eq!(parse_standard_format(ok).unwrap().len(), 1);
    let over = r#"{
        "images": [{"id": 4294967296, "file_name": "a.jpg", "width": 1, "height": 1}],
        "annotations": []
    }"#;
    assert_eq!(parse_standard_format(over).unwrap_err(), ParseError::WrongType);
}

#[test]
fn negative_coordinates_kept() {
    let content = r#"{
        "images": [{"id": 1, "file_name": "a.jpg", "width": 10, "height": 10}],
        "annotations": [
            {"id": 1, "image_id": 1, "category_id": 0, "bbox": [-1.5, -2, 1, 1], "area": 1}
        ]
    }"#;
    let imgs = parse_standard_format(content).unwrap();
    let b = &imgs[0].annotations[0].bbox;
    assert_eq!(b.x1, -1_500_000);
    assert_eq!(b.y1, -2_000_000);
    assert_eq!(b.x2, -500_000);
    assert_eq!(b.y2, -1_000_000);
}

#[test]
fn unknown_fields_ignored() {
    let content = r#"{
        "images": [{"id": 1, "file_name": "a.jpg", "width": 10, "height": 10,
                    "license": null, "extra": {"deep": [1, 2, {"x": true}]}}],
        "annotations": [],
        "categories": null
    }"#;
    assert_eq!(parse_standard_format(content).unwrap().len(), 1);
}
