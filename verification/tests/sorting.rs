//! The median of a run of values.
use speech_enhance::median::median;

#[test]
fn median_of_an_odd_number_of_values() {
    let mut x = [5, 1, 4, 2, 3];
    assert_eq!(median(&mut x), 3);
    assert_eq!(x, [1, 2, 3, 4, 5]);
}

#[test]
fn median_of_an_even_number_of_values_is_the_upper_one() {
    let mut x = [4, 1, 3, 2];
    assert_eq!(median(&mut x), 3);
    assert_eq!(x, [1, 2, 3, 4]);
}

#[test]
fn median_of_one_value_is_that_value() {
    let mut x = [7.5f32];
    assert_eq!(median(&mut x), 7.5);
}

#[test]
fn median_sorts_floating_point_numbers() {
    let mut x = [0.5f32, -1.0, 2.25, 0.0, -3.5, 2.0];
    assert_eq!(median(&mut x), 0.5);
    assert_eq!(x, [-3.5, -1.0, 0.0, 0.5, 2.0, 2.25]);
}

#[test]
fn equal_values_keep_their_order() {
    // Pairs are ordered here by their first entry alone.
    #[derive(Clone, Copy, Debug)]
    struct Keyed(u32, char);
    impl PartialEq for Keyed {
        fn eq(&self, other: &Self) -> bool {
            self.0 == other.0
        }
    }
    impl PartialOrd for Keyed {
        fn partial_cmp(&self, other: &Self) -> Option<std::cmp::Ordering> {
            self.0.partial_cmp(&other.0)
        }
    }
    let mut x = [Keyed(2, 'a'), Keyed(1, 'b'), Keyed(2, 'c'), Keyed(1, 'd'), Keyed(2, 'e')];
    let m = median(&mut x);
    let order: String = x.iter().map(|k| k.1).collect();
    assert_eq!(order, "bdace");
    assert_eq!(m.1, 'a');
}

#[test]
fn sorting_agrees_with_the_standard_library() {
    let mut x: Vec<i64> = (0..1000i64).map(|i| (i * 7919) % 503 - 250).collect();
    let mut y = x.clone();
    let m = median(&mut x);
    y.sort();
    assert_eq!(x, y);
    assert_eq!(m, y[500]);
}
