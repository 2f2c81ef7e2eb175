use shellsort_gaps::gap_sequences::n_smooth::list_n_smooth;

#[test]
fn test_list_n_smooth_1() {
    let smooths = list_n_smooth(1, 1000);
    assert_eq!(smooths, vec![1]);
}

#[test]
fn test_list_n_smooth_2() {
    let smooths = list_n_smooth(2, 1000);
    assert_eq!(smooths, vec![1, 2, 4, 8, 16, 32, 64, 128, 256, 512]);
}

#[test]
fn test_list_n_smooth_3() {
    let smooths = list_n_smooth(3, 1000);
    assert_eq!(smooths, vec![
        1, 2, 3, 4, 6, 8, 9, 12, 16, 18, 24, 27, 32, 36, 48, 54, 64,
        72, 81, 96, 108, 128, 144, 162, 192, 216, 243, 256, 288, 324,
        384, 432, 486, 512, 576, 648, 729, 768, 864, 972
    ]);
}

#[test]
fn test_list_n_smooth_4() {
    let smooths = list_n_smooth(4, 1000);
    assert_eq!(smooths, vec![
        1, 2, 3, 4, 6, 8, 9, 12, 16, 18, 24, 27, 32, 36, 48, 54, 64,
        72, 81, 96, 108, 128, 144, 162, 192, 216, 243, 256, 288, 324,
        384, 432, 486, 512, 576, 648, 729, 768, 864, 972
    ]);
}

#[test]
fn test_list_n_smooth_5() {
    let smooths = list_n_smooth(5, 400);
    assert_eq!(smooths, vec![
        1, 2, 3, 4, 5, 6, 8, 9, 10, 12, 15, 16, 18, 20, 24, 25, 27, 30,
        32, 36, 40, 45, 48, 50, 54, 60, 64, 72, 75, 80, 81, 90, 96, 100,
        108, 120, 125, 128, 135, 144, 150, 160, 162, 180, 192, 200, 216,
        225, 240, 243, 250, 256, 270, 288, 300, 320, 324, 360, 375, 384,
        400
    ]);
}

#[test]
fn n_smooth_edges() {
    assert_eq!(list_n_smooth(3, 0), Vec::<usize>::new());
    assert_eq!(list_n_smooth(3, 1), vec![1]);
    assert_eq!(list_n_smooth(0, 10), vec![1]);
    assert_eq!(list_n_smooth(7, 10), vec![1, 2, 3, 4, 5, 6, 7, 8, 9, 10]);
    assert_eq!(list_n_smooth(2, 2), vec![1, 2]);
}
