use annotation_pipeline::annotation::Annotation;
use annotation_pipeline::naming::label_file_name;
use annotation_pipeline::render::render_labels;
use annotation_pipeline::render::render_line;

#[test]
fn line_format_exact() {
    let a = Annotation::new(0, 500000, 500000, 200000, 300000);
    assert_eq!(render_line(&a), "0 0.500000 0.500000 0.200000 0.300000");
}

#[test]
fn line_format_bounds() {
    let a = Annotation::new(7, 1000000, 0, 123456, 999999);
    assert_eq!(render_line(&a), "7 1.000000 0.000000 0.123456 0.999999");
}

#[test]
fn line_format_large_class_id() {
    let a = Annotation::new(4294967295, 0, 0, 0, 0);
    assert_eq!(render_line(&a), "4294967295 0.000000 0.000000 0.000000 0.000000");
}

#[test]
fn labels_empty() {
    let anns: Vec<Annotation> = Vec::new();
    assert_eq!(render_labels(&anns), "");
}

#[test]
fn labels_one_line_per_annotation() {
    let anns = vec![
        Annotation::new(0, 500000, 500000, 200000, 300000),
        Annotation::new(1, 250000, 750000, 100000, 50000),
    ];
    let s = render_labels(&anns);
    assert_eq!(
        s,
        "0 0.500000 0.500000 0.200000 0.300000\n1 0.250000 0.750000 0.100000 0.050000\n"
    );
    assert_eq!(s.lines().count(), anns.len());
}

#[test]
fn labels_round_trip_through_text() {
    // Each rendered line parses back to the original fields at six decimals.
    let anns = vec![
        Annotation::new(3, 1, 999999, 1000000, 0),
        Annotation::new(12, 345678, 900001, 10, 100000),
    ];
    let s = render_labels(&anns);
    for (line, a) in s.lines().zip(anns.iter()) {
        let fields: Vec<&str> = line.split(' ').collect();
        assert_eq!(fields.len(), 5);
        assert_eq!(fields[0].parse::<u32>().unwrap(), a.class_id);
        let micro = |t: &str| -> u32 {
            let (ip, fp) = t.split_once('.').unwrap();
            assert_eq!(fp.len(), 6);
            ip.parse::<u32>().unwrap() * 1000000 + fp.parse::<u32>().unwrap()
        };
        assert_eq!(micro(fields[1]), a.cx);
        assert_eq!(micro(fields[2]), a.cy);
        assert_eq!(micro(fields[3]), a.w);
        assert_eq!(micro(fields[4]), a.h);
    }
}

#[test]
fn file_name_from_path() {
    assert_eq!(label_file_name("./screenshots/shot_001.png"), "shot_001.txt");
}

#[test]
fn file_name_without_extension() {
    assert_eq!(label_file_name("frames/capture"), "capture.txt");
}

#[test]
fn file_name_keeps_inner_dots() {
    assert_eq!(label_file_name("in.dir/archive.tar.gz"), "archive.tar.txt");
}

#[test]
fn file_name_hidden_file() {
    assert_eq!(label_file_name("work/.hidden"), ".hidden.txt");
}

#[test]
fn file_name_bare() {
    assert_eq!(label_file_name("shot_9.png"), "shot_9.txt");
}
