use coco_to_yolo::model::{BBox, ConvertError, UnifiedAnnotation, UnifiedImage, YoloAnnotation};
use coco_to_yolo::num::{format_micro, u64_to_string};
use coco_to_yolo::pipeline::{build_plan, convert_coco_to_yolo, format_of, Format};
use coco_to_yolo::resolve::find_image_file;
use coco_to_yolo::split::{rng_from_seed, split_images};

fn ann(x1: i64, y1: i64, x2: i64, y2: i64, cat: u32) -> UnifiedAnnotation {
    UnifiedAnnotation { bbox: BBox { x1, y1, x2, y2 }, category_id: cat }
}

fn image(name: &str, w: u32, h: u32, anns: Vec<UnifiedAnnotation>) -> UnifiedImage {
    UnifiedImage { file_name: String::from(name), width: w, height: h, annotations: anns }
}

#[test]
fn format_names() {
    assert_eq!(format_of("standard"), Some(Format::Standard));
    assert_eq!(format_of("damm"), Some(Format::Damm));
    assert_eq!(format_of("coco"), None);
    assert_eq!(format_of(""), None);
}

#[test]
fn number_rendering() {
    assert_eq!(u64_to_string(0), "0");
    assert_eq!(u64_to_string(42), "42");
    assert_eq!(u64_to_string(1000000007), "1000000007");
    assert_eq!(format_micro(0), "0.000000");
    assert_eq!(format_micro(200_000), "0.200000");
    assert_eq!(format_micro(-500_000), "-0.500000");
    assert_eq!(format_micro(1_250_000), "1.250000");
    assert_eq!(format_micro(-1_000_001), "-1.000001");
    assert_eq!(format_micro(166_667), "0.166667");
}

#[test]
fn center_form_exact() {
    // box [10, 10] to [30, 30] on a 100x100 image
    let a = ann(10_000_000, 10_000_000, 30_000_000, 30_000_000, 3);
    let y = YoloAnnotation::from_unified(&a, 100, 100);
    assert_eq!(y.class_id, 3);
    // x_center = 40e6 / 200 micro = 0.2; width = 40e6 / 200 micro = 0.2
    assert_eq!(y.x_center_num, 40_000_000);
    assert_eq!(y.width_num, 40_000_000);
    assert_eq!(y.denom_x, 200);
    assert_eq!(y.to_string(), "3 0.200000 0.200000 0.200000 0.200000");
}

#[test]
fn center_form_rendering_rounds_to_nearest() {
    // box [0, 0] to [1, 1] on a 3x3 image: 1/6 and 1/3 round at micro scale
    let a = ann(0, 0, 1_000_000, 1_000_000, 0);
    let y = YoloAnnotation::from_unified(&a, 3, 3);
    assert_eq!(y.x_center_num, 1_000_000);
    assert_eq!(y.denom_x, 6);
    assert_eq!(y.to_string(), "0 0.166667 0.166667 0.333333 0.333333");
}

#[test]
fn center_form_inverted_box_passes_through() {
    // an inverted box keeps its negative extent
    let a = ann(30_000_000, 30_000_000, 10_000_000, 10_000_000, 1);
    let y = YoloAnnotation::from_unified(&a, 100, 100);
    assert_eq!(y.width_num, -40_000_000);
    assert_eq!(y.to_string(), "1 0.200000 0.200000 -0.200000 -0.200000");
}

#[test]
fn round_trip_reconstruction() {
    // converting to center form and back reproduces the corners: in pixels,
    // x1 == (x_center - width/2) * w, well within the 1e-6 tolerance
    let cases = [
        (10_000_000i64, 10_000_000i64, 30_000_000i64, 30_000_000i64, 100u32, 100u32),
        (123_456i64, 789_012i64, 9_876_543i64, 4_321_098i64, 640u32, 480u32),
        (-5_000_000i64, -2_500_000i64, 1_000_000i64, 500_000i64, 33u32, 97u32),
    ];
    for (x1, y1, x2, y2, w, h) in cases {
        let a = ann(x1, y1, x2, y2, 0);
        let y = YoloAnnotation::from_unified(&a, w, h);
        // exactly, in micro units scaled by two
        assert_eq!(y.x_center_num - y.width_num / 2, 2 * x1);
        assert_eq!(y.x_center_num + y.width_num / 2, 2 * x2);
        assert_eq!(y.y_center_num - y.height_num / 2, 2 * y1);
        assert_eq!(y.y_center_num + y.height_num / 2, 2 * y2);
        // and in floating point through the rational values
        let xc = y.x_center_num as f64 / y.denom_x as f64;
        let bw = y.width_num as f64 / y.denom_x as f64;
        let x1b = (xc - bw / 2.0) * w as f64 / 1e6;
        assert!((x1b - x1 as f64 / 1e6).abs() <= 1e-6);
    }
}

#[test]
fn resolver_exact_name_first() {
    let files = vec![
        String::from("root/other/img1.png"),
        String::from("root/img1.jpg"),
    ];
    // the declared name matches a base name directly
    assert_eq!(find_image_file(&files, "img1.jpg"), Some(String::from("root/img1.jpg")));
    // no exact match: candidate extensions are tried in order, jpg before png
    assert_eq!(find_image_file(&files, "img1.bmp"), Some(String::from("root/img1.jpg")));
    let only_png = vec![String::from("root/img1.png")];
    assert_eq!(find_image_file(&only_png, "img1.bmp"), Some(String::from("root/img1.png")));
    assert_eq!(find_image_file(&files, "img2.jpg"), None);
}

#[test]
fn resolver_first_hit_in_traversal_order() {
    let files = vec![
        String::from("a/img.jpg"),
        String::from("b/img.jpg"),
    ];
    assert_eq!(find_image_file(&files, "img.jpg"), Some(String::from("a/img.jpg")));
}

#[test]
fn split_sizes() {
    let mut rng = rng_from_seed(7);
    let images: Vec<UnifiedImage> =
        (0..10).map(|i| image(&format!("im{}.jpg", i), 10, 10, vec![])).collect();
    let (train, val) = split_images(images, 800_000, &mut rng);
    assert_eq!(train.len(), 8);
    assert_eq!(val.len(), 2);
    let mut names: Vec<String> =
        train.iter().chain(val.iter()).map(|im| im.file_name.clone()).collect();
    names.sort();
    let expected: Vec<String> = {
        let mut v: Vec<String> = (0..10).map(|i| format!("im{}.jpg", i)).collect();
        v.sort();
        v
    };
    assert_eq!(names, expected);
}

#[test]
fn split_ratio_clamped() {
    let mut rng = rng_from_seed(7);
    let images: Vec<UnifiedImage> = (0..4).map(|i| image(&format!("{}.jpg", i), 1, 1, vec![])).collect();
    let (train, val) = split_images(images, 2_000_000, &mut rng);
    assert_eq!(train.len(), 4);
    assert_eq!(val.len(), 0);
}

fn p7_content() -> String {
    String::from(
        r#"{
            "images": [
                {"id": 1, "file_name": "img1.jpg", "width": 100, "height": 100},
                {"id": 2, "file_name": "img2.jpg", "width": 200, "height": 200}
            ],
            "annotations": [
                {"id": 1, "image_id": 1, "category_id": 3, "bbox": [10, 10, 20, 20], "area": 400}
            ]
        }"#,
    )
}

#[test]
fn end_to_end_flat_layout() {
    let contents = vec![p7_content()];
    let files: Vec<String> = vec![];
    let mut rng = rng_from_seed(0);
    let plan = convert_coco_to_yolo(&contents, Format::Standard, true, 1_000_000, false, &files, &mut rng)
        .unwrap();
    assert_eq!(plan.entries.len(), 2);
    assert_eq!(plan.entries[0].label_path, "img1.txt");
    assert_eq!(plan.entries[0].label_content, "3 0.200000 0.200000 0.200000 0.200000\n");
    assert!(plan.entries[0].copy.is_none());
    assert_eq!(plan.entries[1].label_path, "img2.txt");
    assert_eq!(plan.entries[1].label_content, "");
    assert_eq!(plan.classes_content.as_deref(), Some("class_3\n"));
    assert_eq!(plan.missing.len(), 0);
}

#[test]
fn end_to_end_split_layout() {
    let contents = vec![p7_content()];
    let files = vec![String::from("in/img1.jpg"), String::from("in/img2.jpg")];
    let mut rng = rng_from_seed(1);
    let plan = convert_coco_to_yolo(&contents, Format::Standard, true, 1_000_000, true, &files, &mut rng)
        .unwrap();
    // a ratio of one puts both images in training
    assert_eq!(plan.train_count, 2);
    assert_eq!(plan.entries.len(), 2);
    assert_eq!(plan.missing.len(), 0);
    for e in &plan.entries {
        assert!(e.is_train);
        assert!(e.label_path.starts_with("train/labels/"));
        let c = e.copy.as_ref().unwrap();
        assert!(c.dest.starts_with("train/images/"));
    }
    let one = plan.entries.iter().find(|e| e.label_path == "train/labels/img1.txt").unwrap();
    assert_eq!(one.label_content, "3 0.200000 0.200000 0.200000 0.200000\n");
    assert_eq!(one.copy.as_ref().unwrap().source, "in/img1.jpg");
}

#[test]
fn missing_image_is_counted_not_fatal() {
    let contents = vec![p7_content()];
    // img1 is nowhere under the root, in any recognized extension
    let files = vec![String::from("in/img2.jpg")];
    let mut rng = rng_from_seed(1);
    let plan = convert_coco_to_yolo(&contents, Format::Standard, true, 1_000_000, true, &files, &mut rng)
        .unwrap();
    assert_eq!(plan.missing, vec![String::from("img1.jpg")]);
    assert!(plan.entries.iter().all(|e| !e.label_path.contains("img1")));
    assert!(plan.entries.iter().all(|e| {
        e.copy.as_ref().map(|c| !c.dest.contains("img1")).unwrap_or(true)
    }));
    // img1's annotations are the only ones, so no class index is due
    assert_eq!(plan.classes_content, None);
}

#[test]
fn class_index_sorted_and_distinct() {
    let imgs = vec![
        image("a.jpg", 10, 10, vec![ann(0, 0, 1, 1, 7), ann(0, 0, 1, 1, 2)]),
        image("b.jpg", 10, 10, vec![ann(0, 0, 1, 1, 7), ann(0, 0, 1, 1, 0)]),
    ];
    let files: Vec<String> = vec![];
    let plan = build_plan(&imgs, 0, &files, false, true).unwrap();
    assert_eq!(plan.classes_content.as_deref(), Some("class_0\nclass_2\nclass_7\n"));
}

#[test]
fn class_index_skipped_without_annotations() {
    let imgs = vec![image("a.jpg", 10, 10, vec![])];
    let files: Vec<String> = vec![];
    let plan = build_plan(&imgs, 0, &files, false, true).unwrap();
    assert_eq!(plan.classes_content, None);
    let plan2 = build_plan(&imgs, 0, &files, false, false).unwrap();
    assert_eq!(plan2.classes_content, None);
}

#[test]
fn no_input_files_is_fatal() {
    let contents: Vec<String> = vec![];
    let files: Vec<String> = vec![];
    let mut rng = rng_from_seed(0);
    let r = convert_coco_to_yolo(&contents, Format::Standard, true, 800_000, true, &files, &mut rng);
    assert_eq!(r.unwrap_err(), ConvertError::NoInputFiles);
}

#[test]
fn empty_base_name_is_fatal_in_split_layout() {
    let contents = vec![String::from(
        r#"{
            "images": [{"id": 1, "file_name": "dir/", "width": 10, "height": 10}],
            "annotations": []
        }"#,
    )];
    let files: Vec<String> = vec![];
    let mut rng = rng_from_seed(0);
    let r = convert_coco_to_yolo(&contents, Format::Standard, true, 800_000, true, &files, &mut rng);
    assert_eq!(r.unwrap_err(), ConvertError::InvalidFileName);
}

#[test]
fn parse_error_aborts_run() {
    let contents = vec![p7_content(), String::from("broken")];
    let files: Vec<String> = vec![];
    let mut rng = rng_from_seed(0);
    let r = convert_coco_to_yolo(&contents, Format::Standard, true, 800_000, false, &files, &mut rng);
    // the error names the first offending input, by position
    assert!(matches!(r.unwrap_err(), ConvertError::Parse(_, 1)));
}

#[test]
fn same_seed_same_plan() {
    let contents = vec![p7_content()];
    let files = vec![String::from("in/img1.jpg"), String::from("in/img2.jpg")];
    let mut rng1 = rng_from_seed(99);
    let mut rng2 = rng_from_seed(99);
    let p1 = convert_coco_to_yolo(&contents, Format::Standard, true, 500_000, true, &files, &mut rng1)
        .unwrap();
    let p2 = convert_coco_to_yolo(&contents, Format::Standard, true, 500_000, true, &files, &mut rng2)
        .unwrap();
    assert_eq!(p1.train_count, p2.train_count);
    assert_eq!(p1.entries.len(), p2.entries.len());
    for (a, b) in p1.entries.iter().zip(p2.entries.iter()) {
        assert_eq!(a.label_path, b.label_path);
        assert_eq!(a.label_content, b.label_content);
        assert_eq!(a.is_train, b.is_train);
    }
    assert_eq!(p1.classes_content, p2.classes_content);
}

#[test]
fn path_prefix_stripped_for_label_names() {
    let imgs = vec![image("some/dir/photo.jpeg", 10, 10, vec![])];
    let files: Vec<String> = vec![];
    let plan = build_plan(&imgs, 0, &files, false, true).unwrap();
    assert_eq!(plan.entries[0].label_path, "photo.txt");
}

#[test]
fn damm_end_to_end() {
    let contents = vec![String::from(
        r#"{
            "annotations": [
                {"file_name": "cell.jpg", "height": 100, "width": 100, "image_id": 0,
                 "annotations": [
                    {"bbox": [[10, 10], [30, 30]], "category_id": 0}
                 ]}
            ]
        }"#,
    )];
    let files: Vec<String> = vec![];
    let mut rng = rng_from_seed(0);
    let plan = convert_coco_to_yolo(&contents, Format::Damm, true, 1_000_000, false, &files, &mut rng)
        .unwrap();
    assert_eq!(plan.entries[0].label_path, "cell.txt");
    assert_eq!(plan.entries[0].label_content, "0 0.200000 0.200000 0.200000 0.200000\n");
    assert_eq!(plan.classes_content.as_deref(), Some("class_0\n"));
}
