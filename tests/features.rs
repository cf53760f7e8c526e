use straycrab::features::Features;

#[test]
fn aligned_streams_are_accepted() {
    let f = Features::new(
        vec![220.0; 3],
        vec![220.0, 0.0, 221.0],
        vec![vec![1.0, 2.0]; 3],
        vec![vec![0.5, 0.5, 0.5]; 3],
    );
    let f = f.unwrap();
    assert!(f.aligned());
    assert_eq!(f.f0, vec![220.0, 0.0, 221.0]);
    assert_eq!(f.mgc.len(), 3);
}

#[test]
fn empty_streams_are_aligned() {
    let f: Option<Features<f64>> = Features::new(vec![], vec![], vec![], vec![]);
    assert!(f.is_some());
}

#[test]
fn misaligned_streams_are_rejected() {
    // one envelope frame short
    assert!(Features::new(vec![1.0; 2], vec![1.0; 2], vec![vec![1.0]; 1], vec![vec![1.0]; 2]).is_none());
    // envelopes of two widths
    assert!(Features::new(vec![1.0; 2], vec![1.0; 2], vec![vec![1.0], vec![1.0, 2.0]], vec![vec![1.0]; 2]).is_none());
    // aperiodicities of two widths
    assert!(Features::new(vec![1.0; 2], vec![1.0; 2], vec![vec![1.0]; 2], vec![vec![1.0], vec![]]).is_none());
    // base not repeated per frame
    assert!(Features::new(vec![1.0], vec![1.0; 2], vec![vec![1.0]; 2], vec![vec![1.0]; 2]).is_none());
}
