use bkchainsaw::keyquery::{AsQuery, KeyQuery};
use bkchainsaw::keys::{StringKey, U64Key};
use bkchainsaw::metric::hamming::{CountOnes, HammingMetric};
use bkchainsaw::metric::strlen::StrLenMetric;
use bkchainsaw::metric::Metric;

#[test]
fn hamming_distance() {
    let metric: HammingMetric<u64> = Default::default();
    assert_eq!(0usize, metric.distance(&0u64, &0u64));
    assert_eq!(0usize, metric.distance(&1u64, &1u64));
    assert_eq!(1usize, metric.distance(&1u64, &0u64));
    assert_eq!(1usize, metric.distance(&0u64, &1u64));
    assert_eq!(2usize, metric.distance(&1u64, &2u64));
    assert_eq!(1usize, metric.distance(&0u64, &2u64));
}

#[test]
fn hamming_distance_counts_every_bit() {
    assert_eq!(64, HammingMetric::<u64>::distance_static(&0, &u64::MAX));
    assert_eq!(
        32,
        HammingMetric::<u64>::distance_static(&0xFFFF_FFFF_0000_0000, &0)
    );
    assert_eq!(
        1,
        HammingMetric::<u64>::distance_static(&0x8000_0000_0000_0000, &0)
    );
}

#[test]
fn hamming_distance_is_a_metric_on_samples() {
    let samples = [0u64, 1, 2, 3, 0xFF, 0xF0F0, u64::MAX, 0x8000_0000_0000_0001];
    let metric: HammingMetric<u64> = Default::default();
    for a in samples {
        assert_eq!(0, metric.distance(&a, &a));
        for b in samples {
            assert_eq!(metric.distance(&a, &b), metric.distance(&b, &a));
            for c in samples {
                assert!(metric.distance(&a, &c) <= metric.distance(&a, &b) + metric.distance(&b, &c));
            }
        }
    }
}

#[test]
fn count_ones_of_every_width() {
    assert_eq!(8, CountOnes::count_ones(0xFFu8));
    assert_eq!(3, CountOnes::count_ones(0x0103u16));
    assert_eq!(32, CountOnes::count_ones(u32::MAX));
    assert_eq!(1, CountOnes::count_ones(0x8000_0000_0000_0000u64));
    assert_eq!(128, CountOnes::count_ones(u128::MAX));
    assert_eq!(2, CountOnes::count_ones((1u128 << 100) | 1));
    assert_eq!(0, CountOnes::count_ones(0u128));
}

#[test]
fn strlen_distance_is_the_difference_of_lengths() {
    let metric = StrLenMetric;
    assert_eq!(0, metric.distance("foo", "bar"));
    assert_eq!(1, metric.distance("foo", "quux"));
    assert_eq!(1, metric.distance("quux", "foo"));
    assert_eq!(3, metric.distance("", "foo"));
    assert_eq!(0, StrLenMetric::distance_static("", ""));
    // Lengths are counted in bytes: the second string takes two.
    assert_eq!(1, metric.distance("e", "\u{e9}"));
}

#[test]
fn u64_keys_are_their_own_queries() {
    let kq = U64Key;
    let metric: HammingMetric<u64> = Default::default();
    assert_eq!(7, kq.to_key(&7));
    assert_eq!(7, U64Key::to_key_static(&7));
    assert_eq!(&7, U64Key::to_query_static(&7));
    assert!(kq.eq(&7, &7));
    assert!(!kq.eq(&7, &8));
    assert!(U64Key::eq_static(&1, &1));
    assert_eq!(2, kq.distance(&metric, &1, &2));
    assert_eq!(2, U64Key::distance_static(&metric, &1, &2));
    assert_eq!(&5u64, 5u64.as_query());
}

#[test]
fn string_keys_are_queried_by_str() {
    let kq = StringKey;
    let metric = StrLenMetric;
    assert_eq!("foo".to_string(), kq.to_key("foo"));
    assert_eq!("foo".to_string(), StringKey::to_key_static("foo"));
    assert_eq!("foo", StringKey::to_query_static(&"foo".to_string()));
    assert!(kq.eq(&"foo".to_string(), "foo"));
    assert!(!kq.eq(&"foo".to_string(), "bar"));
    assert!(!StringKey::eq_static(&"foo".to_string(), "fooo"));
    assert_eq!(1, kq.distance(&metric, &"foo".to_string(), "quux"));
    assert_eq!(1, StringKey::distance_static(&metric, &"foo".to_string(), "quux"));
    let key = "left".to_string();
    let query: &str = key.as_query();
    assert_eq!("left", query);
}
