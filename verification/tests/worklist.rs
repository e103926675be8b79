use microc_dataflow::worklist::{FifoWorklist, FiloWorklist, Worklist};

#[test]
fn extract_on_empty_returns_none_and_does_not_mutate() {
    let mut w = FiloWorklist::new();
    assert!(w.empty());
    assert_eq!(w.extract(), None);
    assert!(w.empty());
    assert_eq!(w.extract(), None);

    let mut q = FifoWorklist::new();
    assert_eq!(q.extract(), None);
    assert_eq!(q.extract(), None);
    assert!(q.empty());
}

#[test]
fn insert_is_idempotent() {
    let mut w = FiloWorklist::new();
    assert!(w.insert(7));
    assert!(!w.insert(7));
    assert!(w.contains(7));
    assert_eq!(w.extract(), Some(7));
    assert_eq!(w.extract(), None);

    let mut q = FifoWorklist::new();
    assert!(q.insert(7));
    assert!(!q.insert(7));
    assert_eq!(q.extract(), Some(7));
    assert_eq!(q.extract(), None);
}

#[test]
fn filo_extracts_most_recent_first() {
    let mut w = FiloWorklist::new();
    w.insert(1);
    w.insert(2);
    w.insert(3);
    assert_eq!(w.extract(), Some(3));
    assert_eq!(w.extract(), Some(2));
    assert_eq!(w.extract(), Some(1));
    assert_eq!(w.extract(), None);
}

#[test]
fn fifo_extracts_earliest_first() {
    let mut q = FifoWorklist::new();
    q.insert(1);
    q.insert(2);
    q.insert(3);
    assert_eq!(q.extract(), Some(1));
    assert_eq!(q.extract(), Some(2));
    assert_eq!(q.extract(), Some(3));
    assert_eq!(q.extract(), None);
}

#[test]
fn contains_and_empty_are_pure_queries() {
    let mut w = FifoWorklist::new();
    w.insert(4);
    w.insert(9);
    assert!(w.contains(4));
    assert!(w.contains(9));
    assert!(!w.contains(5));
    assert!(!w.empty());
    assert!(w.contains(4));
    assert_eq!(w.extract(), Some(4));
    assert!(!w.contains(4));
    assert!(w.contains(9));
}

#[test]
fn default_is_empty() {
    let w: FiloWorklist = Default::default();
    assert!(w.empty());
    let q: FifoWorklist = Default::default();
    assert!(q.empty());
}
