use rover_vision::channel::BoundedFrameChannel;
use rover_vision::config::ModelConfig;
use rover_vision::errors::DetectError;
use rover_vision::frame::{Frame, pre_process};
use rover_vision::rate::{RateMonitor, RateSample, frames_per_second_milli};

fn marked_frame(tag: u8) -> Frame {
    Frame::new(1, 1, vec![tag, 0, 0]).expect("buffer matches dimensions")
}

// Frames come out in the order they went in, none lost, none duplicated.
#[test]
fn channel_delivers_fifo() {
    let mut ch = BoundedFrameChannel::new(4);
    for tag in 1..=3u8 {
        assert!(ch.try_send(marked_frame(tag)).is_none());
    }
    for tag in 1..=3u8 {
        let f = ch.try_recv().expect("a frame is pending");
        assert_eq!(f, marked_frame(tag));
    }
    assert!(ch.try_recv().is_none());
}

// The channel never holds more than its capacity: the third send into a
// two-slot channel is refused and hands the frame back untouched, and
// succeeds again once the consumer frees a slot.
#[test]
fn channel_backpressure_at_capacity() {
    let mut ch = BoundedFrameChannel::new(2);
    assert!(ch.try_send(marked_frame(1)).is_none());
    assert!(ch.try_send(marked_frame(2)).is_none());
    assert_eq!(ch.len(), 2);
    let refused = ch.try_send(marked_frame(3)).expect("queue is full");
    assert_eq!(refused, marked_frame(3));
    assert_eq!(ch.len(), 2);
    assert_eq!(ch.try_recv().expect("pending"), marked_frame(1));
    assert!(ch.try_send(refused).is_none());
    assert_eq!(ch.len(), 2);
}

// Interleaved producer/consumer rates still deliver in order.
#[test]
fn channel_interleaved_rates_keep_order() {
    let mut ch = BoundedFrameChannel::new(2);
    let mut seen: Vec<u8> = Vec::new();
    let mut next: u8 = 0;
    for round in 0..10u32 {
        let bursts: u32 = if round % 3 == 0 { 2 } else { 1 };
        for _ in 0..bursts {
            if ch.try_send(marked_frame(next)).is_none() {
                next += 1;
            }
        }
        if round % 2 == 0 {
            if let Some(f) = ch.try_recv() {
                seen.push(f.data[0]);
            }
        }
    }
    while let Some(f) = ch.try_recv() {
        seen.push(f.data[0]);
    }
    let expect: Vec<u8> = (0..next).collect();
    assert_eq!(seen, expect);
}

// A wide frame pads rows of black below the image, top-left preserved.
#[test]
fn preprocess_pads_wide_frame_below() {
    let f = Frame::new(2, 1, vec![10, 20, 30, 40, 50, 60]).unwrap();
    let out = pre_process(&f).expect("nonzero dimensions");
    assert_eq!(out.width, 2);
    assert_eq!(out.height, 2);
    assert_eq!(out.data, vec![10, 20, 30, 40, 50, 60, 0, 0, 0, 0, 0, 0]);
}

// A tall frame pads columns of black to the right of each row.
#[test]
fn preprocess_pads_tall_frame_right() {
    let f = Frame::new(1, 2, vec![1, 2, 3, 4, 5, 6]).unwrap();
    let out = pre_process(&f).expect("nonzero dimensions");
    assert_eq!(out.width, 2);
    assert_eq!(out.height, 2);
    assert_eq!(out.data, vec![1, 2, 3, 0, 0, 0, 4, 5, 6, 0, 0, 0]);
}

// An already-square frame passes through unchanged.
#[test]
fn preprocess_square_frame_unchanged() {
    let bytes = vec![7u8; 12];
    let f = Frame::new(2, 2, bytes.clone()).unwrap();
    let out = pre_process(&f).expect("nonzero dimensions");
    assert_eq!(out.width, 2);
    assert_eq!(out.height, 2);
    assert_eq!(out.data, bytes);
}

// A zero-dimension frame is rejected as InvalidFrame.
#[test]
fn preprocess_rejects_zero_dimension() {
    let f = Frame::new(0, 5, vec![]).unwrap();
    assert_eq!(pre_process(&f), Err(DetectError::InvalidFrame));
}

#[test]
fn frame_new_checks_buffer_length() {
    assert!(Frame::new(2, 2, vec![0; 11]).is_none());
    assert!(Frame::new(2, 2, vec![0; 12]).is_some());
}

// The monitor reports once the window spans a second, then resets.
#[test]
fn rate_monitor_reports_each_window() {
    let mut m = RateMonitor::new(0);
    assert!(m.record_one(100).is_none());
    let s = m.record_one(1000).expect("window complete");
    assert_eq!(s, RateSample { frames: 2, elapsed_ms: 1000 });
    assert!(m.record_one(1500).is_none());
    let s2 = m.record_one(2100).expect("window complete");
    assert_eq!(s2, RateSample { frames: 2, elapsed_ms: 1100 });
}

#[test]
fn rate_to_milli_fps() {
    let s = RateSample { frames: 2, elapsed_ms: 1000 };
    assert_eq!(frames_per_second_milli(&s), 2000);
    let s2 = RateSample { frames: 30, elapsed_ms: 1500 };
    assert_eq!(frames_per_second_milli(&s2), 20000);
}

#[test]
fn model_config_validity_and_channels() {
    let cfg = ModelConfig {
        model_path: String::from("model.onnx"),
        class_names: vec![String::from("person"), String::from("cart")],
        input_size: 640,
    };
    assert!(cfg.validate());
    assert_eq!(cfg.num_classes(), 2);
    assert_eq!(cfg.expected_channels(), Some(6));
    let bad = ModelConfig {
        model_path: String::from("model.onnx"),
        class_names: vec![],
        input_size: 0,
    };
    assert!(!bad.validate());
}
