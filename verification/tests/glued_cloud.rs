use pointcloud::cloud::LabeledCloud;
use pointcloud::cloud::PointCloud;
use pointcloud::cloud::SimpleLabeledCloud;
use pointcloud::cloud::VecCloud;
use pointcloud::glued::HashGluedCloud;
use pointcloud::summary::Summary;

fn build_glue_fixed_test(
    partitions: usize,
    count: usize,
    data_dim: usize,
) -> HashGluedCloud<VecCloud<Vec<f32>>> {
    let mut sources = Vec::new();
    for _ in 0..partitions {
        let mut pts = Vec::new();
        for _ in 0..count {
            pts.push(vec![1.0f32; data_dim]);
        }
        sources.push(VecCloud::new(pts, data_dim));
    }
    HashGluedCloud::new(sources)
}

#[test]
fn address_correct() {
    let pc = build_glue_fixed_test(5, 2, 3);

    for i in &[1u64, 3, 5, 7, 9] {
        let address = pc.get_address(*i).unwrap();
        assert_eq!(address, ((i / 2) as usize, i % 2));
    }
}

#[test]
fn point_correct() {
    let pc = build_glue_fixed_test(5, 2, 3);

    for i in &[1u64, 3, 5, 7, 9] {
        let point = pc.point(*i).unwrap();
        assert_eq!(point.len(), 3);
        for d in point {
            assert!((1.0f32 - d).abs() < 1e-6);
        }
    }
}

#[test]
fn lengths_add_up() {
    let pc = build_glue_fixed_test(5, 2, 3);
    assert_eq!(pc.len(), 10);
    assert_eq!(pc.dim(), 3);
    let mut idxs = pc.reference_indexes();
    idxs.sort();
    let expected: Vec<u64> = (0..10).collect();
    assert_eq!(idxs, expected);
}

#[test]
fn bad_index_is_data_access_error() {
    let pc = build_glue_fixed_test(5, 2, 3);
    let err = pc.point(100).unwrap_err();
    assert_eq!(err.index(), 100);
    let err = pc.get_address(10).unwrap_err();
    assert_eq!(err.index(), 10);
}

#[test]
fn empty_of_no_sources_is_false() {
    let pc: HashGluedCloud<VecCloud<Vec<f32>>> = HashGluedCloud::new(Vec::new());
    assert!(!pc.is_empty());
    assert_eq!(pc.len(), 0);
}

#[test]
fn empty_iff_every_source_empty() {
    let empty_a: VecCloud<Vec<f32>> = VecCloud::new(Vec::new(), 3);
    let empty_b: VecCloud<Vec<f32>> = VecCloud::new(Vec::new(), 3);
    let pc = HashGluedCloud::new(vec![empty_a, empty_b]);
    assert!(pc.is_empty());

    let full = VecCloud::new(vec![vec![1.0f32; 3]], 3);
    let empty_c: VecCloud<Vec<f32>> = VecCloud::new(Vec::new(), 3);
    let pc = HashGluedCloud::new(vec![empty_c, full]);
    assert!(!pc.is_empty());
}

fn build_two_source_labeled() -> HashGluedCloud<SimpleLabeledCloud<VecCloud<Vec<f32>>>> {
    let mut pts0 = Vec::new();
    for j in 0..4 {
        pts0.push(vec![j as f32; 3]);
    }
    let labels0 = vec![Some(1i64), Some(2), None, Some(1)];
    let src0 = SimpleLabeledCloud::new(VecCloud::new(pts0, 3), labels0);

    let mut pts1 = Vec::new();
    for j in 0..6 {
        pts1.push(vec![10.0f32 + j as f32; 3]);
    }
    let labels1 = vec![Some(3i64), None, Some(1), Some(2), Some(3), Some(3)];
    let src1 = SimpleLabeledCloud::new(VecCloud::new(pts1, 3), labels1);

    HashGluedCloud::new(vec![src0, src1])
}

#[test]
fn end_to_end_two_sources() {
    let pc = build_two_source_labeled();
    assert_eq!(pc.len(), 10);

    let address = pc.get_address(7).unwrap();
    assert_eq!(address, (1usize, 3u64));
    let point = pc.point(7).unwrap();
    assert_eq!(point, &vec![13.0f32, 13.0, 13.0]);

    let full = pc.label_summary(&[0, 1, 7, 9]).unwrap();

    let sources = pc.take_data_sources();
    let part0 = sources[0].label_summary(&[0, 1]).unwrap();
    let part1 = sources[1].label_summary(&[3, 5]).unwrap();
    let mut combined = part0;
    combined.combine(part1);

    assert_eq!(full.count(), combined.count());
    assert_eq!(full.nones(), combined.nones());
    assert_eq!(full.errors(), combined.errors());
    for v in [1i64, 2, 3] {
        assert_eq!(full.value_count(v), combined.value_count(v));
    }
    assert_eq!(full.count(), 4);
    assert_eq!(full.nones(), 0);
    assert_eq!(full.value_count(1), 1);
    assert_eq!(full.value_count(2), 2);
    assert_eq!(full.value_count(3), 1);
}

#[test]
fn label_summary_reports_first_bad_index() {
    let pc = build_two_source_labeled();
    let err = match pc.label_summary(&[0, 42, 77]) {
        Err(e) => e,
        Ok(_) => panic!("expected a data-access error"),
    };
    assert_eq!(err.index(), 42);
    let l = pc.label(2).unwrap();
    assert_eq!(l, None);
    let l = pc.label(4).unwrap();
    assert_eq!(l, Some(&3i64));
}
