use fact_store::illumination::color_from_channels;

#[test]
fn missing_channels_have_their_defaults() {
    assert_eq!(color_from_channels(&vec![]), vec![0, 0, 0, 255]);
    assert_eq!(color_from_channels(&vec![None, None, None, None]), vec![0, 0, 0, 255]);
    assert_eq!(color_from_channels(&vec![Some(9)]), vec![9, 0, 0, 255]);
    assert_eq!(color_from_channels(&vec![None, Some(7), None, Some(1)]), vec![0, 7, 0, 1]);
    assert_eq!(
        color_from_channels(&vec![Some(1), Some(2), Some(3), Some(4), Some(5)]),
        vec![1, 2, 3, 4]
    );
    assert_eq!(color_from_channels(&vec![Some(-1), Some(300), None]), vec![-1, 300, 0, 255]);
}
