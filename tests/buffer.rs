use ocdscope::buffer::{index_before_at, SampleBuffer};

#[test]
fn test_index_before_at() {
    let samples: Vec<(i64, f64)> = (0..10).map(|i| (10 * i as i64, i as f64)).collect();

    assert_eq!(index_before_at(&samples, -10), None);
    assert_eq!(index_before_at(&samples, 5), Some(0));
    assert_eq!(index_before_at(&samples, 50), Some(5));
    assert_eq!(index_before_at(&samples, 100), Some(9));
    assert_eq!(index_before_at(&samples, i64::MIN), None);
    assert_eq!(index_before_at(&samples, i64::MAX), Some(9));
}

#[test]
fn test_samplebuffer_push() {
    let mut buffer = SampleBuffer::new();

    for i in 0..10 {
        buffer.push(i as i64, i as f64 + 1.0);
    }

    assert_eq!(buffer.samples().len(), 10);

    for (i, sample) in (0..10).zip(buffer.samples().iter()) {
        assert_eq!(sample.0, i as i64);
        assert_eq!(sample.1, i as f64 + 1.0);
    }
}

#[test]
fn test_samplebuffer_plot_points_range() {
    let mut buffer = SampleBuffer::new();

    for i in 0..100 {
        buffer.push(i as i64, i as f64 + 1.0);
    }

    assert_eq!(buffer.samples().len(), 100);

    assert!(buffer.plot_points(3, 50).iter().all(|p| p.0 >= 3 && p.0 <= 50));

    assert!(buffer
        .plot_points(i64::MIN, i64::MAX)
        .iter()
        .all(|p| p.0 >= 0 && p.0 <= 99));
}

#[test]
fn plot_points_selects_closed_range() {
    let mut buffer = SampleBuffer::new();
    for i in 0..100 {
        buffer.push(i as i64, i as u32);
    }
    let r = buffer.plot_points(3, 50);
    assert_eq!(r.len(), 48);
    assert_eq!(r[0], (3, 3));
    assert_eq!(r[47], (50, 50));
    assert_eq!(buffer.plot_points(i64::MIN, i64::MAX), buffer.samples().to_vec());
    assert!(buffer.plot_points(200, 300).is_empty());
    assert!(buffer.plot_points(50, 3).is_empty());
    let empty: SampleBuffer<u32> = SampleBuffer::new();
    assert!(empty.plot_points(i64::MIN, i64::MAX).is_empty());
}

#[test]
fn plot_points_keeps_equal_times() {
    let mut buffer = SampleBuffer::new();
    for (t, y) in [(1, 'a'), (2, 'b'), (2, 'c'), (2, 'd'), (3, 'e')] {
        buffer.push(t, y);
    }
    assert_eq!(buffer.plot_points(2, 2), vec![(2, 'b'), (2, 'c'), (2, 'd')]);
    assert_eq!(buffer.index_before_at(2), Some(3));
    assert_eq!(buffer.index_before_at(0), None);
}

#[test]
fn test_samplebuffer_time_bounds() {
    let mut buffer = SampleBuffer::new();

    assert_eq!(buffer.time_bounds(), None);

    buffer.push(0, 1.0);

    assert_eq!(buffer.time_bounds(), Some((0, 0)));

    for i in 1..100 {
        buffer.push(i as i64, i as f64 + 1.0);
    }

    assert_eq!(buffer.samples().len(), 100);
    assert_eq!(buffer.time_bounds(), Some((0, 99)));
    assert_eq!(buffer.last_time(), Some(99));
}

#[test]
fn test_samplebuffer_truncate() {
    let mut buffer = SampleBuffer::new();

    for i in 0..100 {
        buffer.push(i as i64, i as f64 + 1.0);
    }

    assert_eq!(buffer.samples().len(), 100);

    buffer.truncate(10);

    assert_eq!(buffer.samples().len(), 10);
    assert_eq!(buffer.time_bounds(), Some((90, 99)));
}

#[test]
fn truncate_edge_cases() {
    let mut empty: SampleBuffer<u8> = SampleBuffer::new();
    empty.truncate(5);
    assert_eq!(empty.time_bounds(), None);

    let mut buffer = SampleBuffer::new();
    for i in 0..10 {
        buffer.push(i as i64, 0u8);
    }
    buffer.truncate(100);
    assert_eq!(buffer.samples().len(), 10);
    buffer.truncate(9);
    assert_eq!(buffer.samples().len(), 10);
    buffer.truncate(1);
    assert_eq!(buffer.samples().len(), 1);
    assert_eq!(buffer.time_bounds(), Some((9, 9)));
    buffer.push(9, 1u8);
    buffer.truncate(0);
    assert_eq!(buffer.samples().len(), 2);
}
