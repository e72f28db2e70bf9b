use voxtral_mini_realtime::audio::RingBuffer;

#[test]
fn test_new_buffer() {
    let rb: RingBuffer<f32> = RingBuffer::new(100);
    assert_eq!(rb.capacity(), 100);
    assert_eq!(rb.len(), 0);
    assert!(rb.is_empty());
    assert!(!rb.is_full());
}

#[test]
fn test_push_and_snapshot() {
    let mut rb: RingBuffer<f32> = RingBuffer::new(4);
    rb.push(1.0);
    rb.push(2.0);
    rb.push(3.0);
    assert_eq!(rb.len(), 3);
    assert_eq!(rb.snapshot(), vec![1.0, 2.0, 3.0]);
}

#[test]
fn test_wrap_around() {
    let mut rb: RingBuffer<f32> = RingBuffer::new(4);
    rb.push_slice(&[1.0, 2.0, 3.0, 4.0]);
    assert!(rb.is_full());

    // One more overwrites the oldest (1.0).
    rb.push(5.0);
    assert_eq!(rb.snapshot(), vec![2.0, 3.0, 4.0, 5.0]);
}

#[test]
fn test_push_slice_larger_than_capacity() {
    let mut rb: RingBuffer<f32> = RingBuffer::new(3);
    rb.push_slice(&[1.0, 2.0, 3.0, 4.0, 5.0]);
    // Only the last 3 are retained.
    assert_eq!(rb.snapshot(), vec![3.0, 4.0, 5.0]);
    assert_eq!(rb.len(), 3);
}

#[test]
fn test_clear() {
    let mut rb: RingBuffer<f32> = RingBuffer::new(10);
    rb.push_slice(&[1.0, 2.0, 3.0]);
    rb.clear();
    assert!(rb.is_empty());
    assert_eq!(rb.len(), 0);
    assert_eq!(rb.snapshot(), Vec::<f32>::new());
}

#[test]
fn consuming_takes_the_oldest() {
    let mut rb: RingBuffer<u32> = RingBuffer::new(4);
    rb.push_slice(&[1, 2, 3, 4, 5, 6]);
    rb.consume(1);
    assert_eq!(rb.snapshot(), vec![4, 5, 6]);
    rb.push_slice(&[7, 8]);
    assert_eq!(rb.snapshot(), vec![5, 6, 7, 8]);
    rb.consume(9);
    assert!(rb.is_empty());
    rb.push(10);
    assert_eq!(rb.snapshot(), vec![10]);
}

#[test]
fn buffer_is_a_window_of_the_stream() {
    let mut rb: RingBuffer<u32> = RingBuffer::new(7);
    let mut all: Vec<u32> = Vec::new();
    for (i, n) in [1usize, 3, 0, 5, 2, 9, 4, 1].iter().enumerate() {
        let part: Vec<u32> = (0..*n as u32).map(|k| 100 * i as u32 + k).collect();
        rb.push_slice(&part);
        all.extend(part);
        let from = all.len().saturating_sub(7);
        assert_eq!(rb.snapshot(), all[from..].to_vec());
    }
}

fn peak(samples: Vec<f32>) -> f32 {
    samples.iter().map(|s| s.abs()).fold(0.0f32, f32::max)
}

#[test]
fn test_snapshot_peaks() {
    let mut rb: RingBuffer<f32> = RingBuffer::new(100);
    // Push a simple pattern: 0..99
    let samples: Vec<f32> = (0..100).map(|i| i as f32 / 100.0).collect();
    rb.push_slice(&samples);

    // Downsample to 10 buckets
    let peaks = rb.snapshot_peaks(10, 0.0, &peak);
    assert_eq!(peaks.len(), 10);
    // Last bucket should have the highest peak (near 0.99)
    assert!(peaks[9] > 0.9);
    // First bucket should have low values
    assert!(peaks[0] < 0.1);
}

#[test]
fn peaks_are_not_lost() {
    let mut rb: RingBuffer<f32> = RingBuffer::new(10);
    assert_eq!(rb.snapshot_peaks(3, 0.0, &peak), vec![0.0; 3]);
    rb.push_slice(&[0.1, -0.9, 0.2]);
    assert_eq!(rb.snapshot_peaks(0, 0.0, &peak), Vec::<f32>::new());
    // Wider than the samples: some columns are empty, every sample shows.
    assert_eq!(
        rb.snapshot_peaks(6, 0.0, &peak),
        vec![0.0, 0.1, 0.0, 0.9, 0.0, 0.2]
    );
    rb.push_slice(&[0.0, 0.0, 0.0, 0.0, 0.7]);
    assert_eq!(rb.snapshot_peaks(3, 0.0, &peak), vec![0.9, 0.2, 0.7]);
}
