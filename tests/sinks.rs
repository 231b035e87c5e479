use scheng::engine::{ExecOutput, ImageRef, RenderTarget, TargetId};
use scheng::exec::ExecOutputs;
use scheng::sinks::{FanoutSink, NoopSink, OutputSink, PatchbaySink, PingPongTarget, ReadbackSink, TemporalRing};
use std::cell::RefCell;
use std::rc::Rc;

struct Recorder {
    tag: &'static str,
    log: Rc<RefCell<Vec<(&'static str, u32)>>>,
}

impl OutputSink for Recorder {
    fn receives(_before: Self, _after: Self, _out: ExecOutput) -> bool {
        true
    }

    fn consume(&mut self, out: &ExecOutput) {
        self.log.borrow_mut().push((self.tag, out.target.0));
    }
}

fn output(t: u32) -> ExecOutput {
    ExecOutput { image: ImageRef::Target(TargetId(t)), target: TargetId(t), width: 2, height: 2 }
}

#[test]
fn fanout_feeds_both_sinks_in_order() {
    let log = Rc::new(RefCell::new(Vec::new()));
    let mut sink = FanoutSink {
        a: Recorder { tag: "a", log: log.clone() },
        b: FanoutSink { a: NoopSink, b: Recorder { tag: "b", log: log.clone() } },
    };
    sink.consume(&output(3));
    assert_eq!(*log.borrow(), vec![("a", 3), ("b", 3)]);
}

#[test]
fn patchbay_routes_by_name_and_rejects_unknown_names() {
    let log = Rc::new(RefCell::new(Vec::new()));
    let outs = ExecOutputs {
        primary: output(1),
        named: vec![("main".to_string(), output(1)), ("preview".to_string(), output(2))],
    };
    let mut bay = PatchbaySink::new();
    bay.add_route("preview", Recorder { tag: "p", log: log.clone() });
    bay.add_route("main", Recorder { tag: "m1", log: log.clone() });
    bay.add_route("main", Recorder { tag: "m2", log: log.clone() });
    bay.consume_named(&outs).unwrap();
    assert_eq!(*log.borrow(), vec![("p", 2), ("m1", 1), ("m2", 1)]);

    log.borrow_mut().clear();
    bay.add_route("record", Recorder { tag: "r", log: log.clone() });
    let err = bay.consume_named(&outs).unwrap_err();
    assert_eq!(err.message(), "PatchbaySink: missing named output 'record'");
    assert!(log.borrow().is_empty());
}

#[test]
fn temporal_ring_overwrites_the_oldest_slot() {
    let mut ring = TemporalRing::new(320, 240, 3);
    assert_eq!(ring.capacity(), 3);
    assert_eq!(ring.size(), (320, 240));
    let written: Vec<usize> = (0..5).map(|_| ring.push()).collect();
    assert_eq!(written, vec![0, 1, 2, 0, 1]);
    assert_eq!(ring.head(), 2);
    assert_eq!(ring.slot_for_frames_ago(0), 1);
    assert_eq!(ring.slot_for_frames_ago(1), 0);
    assert_eq!(ring.slot_for_frames_ago(2), 2);
    assert_eq!(ring.slot_for_frames_ago(3), 1);
    let oldest = ring.slot_for_frames_ago(2);
    assert_eq!(ring.push(), oldest);
    assert_eq!(ring.slot_for_frames_ago(0), oldest);
    assert!(ring.fits(3, 320, 240));
    assert!(!ring.fits(4, 320, 240));
    assert!(!ring.fits(3, 320, 200));
    let single = TemporalRing::new(1, 1, 0);
    assert!(single.fits(0, 1, 1));
    assert_eq!(single.capacity(), 1);
    assert_eq!(single.slot_for_frames_ago(9), 0);
}

#[test]
fn readback_respects_stride_and_enable() {
    let mut rb = ReadbackSink::new(2);
    let taken: Vec<bool> = (0..5).map(|_| rb.begin_frame()).collect();
    assert_eq!(taken, vec![false, true, false, true, false]);
    assert!(rb.last().is_none());
    rb.store(2, 1, vec![1, 2, 3, 4, 5, 6, 7, 8]);
    let (w, h, px) = rb.last().unwrap();
    assert_eq!((w, h, px.len()), (2, 1, 8));
    rb.set_enabled(false);
    assert!(!rb.begin_frame());
    rb.set_enabled(true);
    rb.set_stride(0);
    assert!(rb.begin_frame());
    rb.clear();
    assert!(rb.last().is_none());
    rb.store(0, 5, vec![1]);
    assert!(rb.last().is_none());
}

#[test]
fn ping_pong_swaps_roles() {
    let a = RenderTarget { id: TargetId(1), w: 8, h: 4 };
    let b = RenderTarget { id: TargetId(2), w: 8, h: 4 };
    let mut pp = PingPongTarget::new(a, b, 8, 4);
    assert_eq!(pp.size(), (8, 4));
    assert_eq!(pp.prev_target().id, TargetId(1));
    assert_eq!(pp.next_target().id, TargetId(2));
    let drawn = pp.next_target().id;
    pp.swap();
    assert_eq!(pp.prev_target().id, drawn);
    assert_eq!(pp.next_target().id, TargetId(1));
    let c = RenderTarget { id: TargetId(3), w: 2, h: 2 };
    let d = RenderTarget { id: TargetId(4), w: 2, h: 2 };
    pp.resize(c, d, 2, 2);
    assert_eq!(pp.size(), (2, 2));
    assert_eq!(pp.prev_target().id, TargetId(3));
}
