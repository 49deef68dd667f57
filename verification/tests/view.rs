use vfbow::view::{list_bow, list_features, order_key, ListOutput, SortMode, ViewError, ViewMode};
use vfbow::{Bow, Features};

fn bow(items: &[(u32, f32)]) -> Bow {
    let mut b = Bow::with_capacity(items.len());
    for (w, v) in items {
        b.set(*w, v.to_bits());
    }
    b
}

fn keys(r: Result<ListOutput, ViewError>) -> Vec<u32> {
    match r.unwrap() {
        ListOutput::Keys(ks) => ks,
        _ => panic!("not a keys view"),
    }
}

fn bow_values(r: Result<ListOutput, ViewError>) -> Vec<f32> {
    match r.unwrap() {
        ListOutput::ValueB(vs) => vs.into_iter().map(f32::from_bits).collect(),
        _ => panic!("not a values view"),
    }
}

fn bow_items(r: Result<ListOutput, ViewError>) -> Vec<(u32, f32)> {
    match r.unwrap() {
        ListOutput::ItemB(its) => its.into_iter().map(|(k, v)| (k, f32::from_bits(v))).collect(),
        _ => panic!("not an items view"),
    }
}

#[test]
fn bow_views_sorted() {
    let b = bow(&[(5, 0.5), (1, -2.0), (9, 3.0), (3, 0.0)]);
    assert_eq!(keys(list_bow(&b, ViewMode::Keys, SortMode::Keys, false)), vec![1, 3, 5, 9]);
    assert_eq!(keys(list_bow(&b, ViewMode::Keys, SortMode::Keys, true)), vec![9, 5, 3, 1]);
    assert_eq!(bow_values(list_bow(&b, ViewMode::Values, SortMode::Values, false)), vec![-2.0, 0.0, 0.5, 3.0]);
    assert_eq!(bow_values(list_bow(&b, ViewMode::Values, SortMode::Keys, false)), vec![-2.0, 0.0, 0.5, 3.0]);
    assert_eq!(
        bow_items(list_bow(&b, ViewMode::Items, SortMode::Values, true)),
        vec![(9, 3.0), (5, 0.5), (3, 0.0), (1, -2.0)]
    );
    assert_eq!(
        bow_items(list_bow(&b, ViewMode::Items, SortMode::Keys, false)),
        vec![(1, -2.0), (3, 0.0), (5, 0.5), (9, 3.0)]
    );
    let mut unsorted = keys(list_bow(&b, ViewMode::Keys, SortMode::Unsorted, false));
    unsorted.sort();
    assert_eq!(unsorted, vec![1, 3, 5, 9]);
    assert_eq!(list_bow(&b, ViewMode::Keys, SortMode::Values, false).err(), Some(ViewError::KeysByValue));
    assert_eq!(ViewMode::Values.default_sort(), SortMode::Values);
    assert_eq!(ViewMode::Items.default_sort(), SortMode::Keys);
}

#[test]
fn order_key_follows_total_order() {
    let values = [f32::NEG_INFINITY, -3.5, -0.0, 0.0, 1.0e-30, 2.0, f32::INFINITY];
    for pair in values.windows(2) {
        assert!(order_key(pair[0].to_bits()) < order_key(pair[1].to_bits()));
        assert_eq!(pair[0].total_cmp(&pair[1]), std::cmp::Ordering::Less);
    }
}

#[test]
fn features_views() {
    let mut f = Features::new();
    f.insert(7, 1);
    f.insert(2, 0);
    f.insert(7, 3);
    assert_eq!(keys(list_features(&f, ViewMode::Keys, SortMode::Keys, false)), vec![2, 7]);
    match list_features(&f, ViewMode::Items, SortMode::Keys, true).unwrap() {
        ListOutput::ItemF(its) => assert_eq!(its, vec![(7, vec![1, 3]), (2, vec![0])]),
        _ => panic!("not an items view"),
    }
    match list_features(&f, ViewMode::Values, SortMode::Keys, false).unwrap() {
        ListOutput::ValueF(vs) => assert_eq!(vs, vec![vec![0], vec![1, 3]]),
        _ => panic!("not a values view"),
    }
    assert_eq!(list_features(&f, ViewMode::Items, SortMode::Values, false).err(), Some(ViewError::FeaturesByValue));
}
