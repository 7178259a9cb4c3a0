use rudo_gc::incremental::{mark_slice, FallbackReason, IncrementalMarkState, MarkSliceResult};
use rudo_gc::lookup::PageAt;
use rudo_gc::page::PageHeader;
use rudo_gc::sweep::{GcSlot, Page};

const MASK: usize = !0xfff;

fn page_at(addr: usize) -> PageAt {
    let mut header = PageHeader::new(64, 8, PageHeader::header_size(64) as u16, 0, 0);
    for i in 0..8 {
        header.set_allocated(i);
    }
    let slot = GcSlot { weak_count: 0, value_dead: false, next_free: None };
    PageAt { addr, page: Page { header, slots: vec![slot; 8] } }
}

fn obj(page: usize, slot: usize) -> usize {
    page + PageHeader::header_size(64) + slot * 64
}

#[test]
fn slices_trace_the_worklist_until_marking_completes() {
    let mut pages = vec![page_at(0x10000)];
    let a = obj(0x10000, 0);
    let b = obj(0x10000, 1);
    let c = obj(0x10000, 2);
    pages[0].page.header.set_mark(0);
    let trace = |p: usize| if p == a { vec![b, c, 0x90000] } else if p == b { vec![a] } else { vec![] };
    let mut st = IncrementalMarkState::new();
    st.push_work(a);
    let r = mark_slice(&mut st, &mut pages, &vec![], 1, MASK, &trace, 0, 0);
    assert_eq!(r, MarkSliceResult::Pending { objects_marked: 1, dirty_pages_remaining: 0 });
    assert!(pages[0].page.header.is_marked(1));
    assert!(pages[0].page.header.is_marked(2));
    assert!(!pages[0].page.header.is_marked(3));
    assert_eq!(st.worklist_len(), 2);
    let r = mark_slice(&mut st, &mut pages, &vec![], 10, MASK, &trace, 0, 0);
    assert_eq!(r, MarkSliceResult::Complete { total_objects_marked: 3, total_slices: 2 });
    assert_eq!(st.worklist_len(), 0);
}

#[test]
fn slice_scans_dirty_pages() {
    let mut pages = vec![page_at(0x10000), page_at(0x20000)];
    pages[1].page.header.set_mark(3);
    let trace = |_p: usize| vec![];
    let mut st = IncrementalMarkState::new();
    let r = mark_slice(&mut st, &mut pages, &vec![1], 10, MASK, &trace, 0, 0);
    // Seven unmarked objects of the dirty page are marked and queued.
    assert_eq!(r, MarkSliceResult::Pending { objects_marked: 0, dirty_pages_remaining: 0 });
    assert_eq!(st.worklist_len(), 7);
    assert_eq!(st.stats.dirty_pages_scanned, 7);
    for i in 0..8 {
        assert!(pages[1].page.header.is_marked(i));
        assert!(!pages[0].page.header.is_marked(i));
    }
}

#[test]
fn slice_reports_a_requested_fallback() {
    let mut pages = vec![page_at(0x10000)];
    let trace = |_p: usize| vec![];
    let mut st = IncrementalMarkState::new();
    st.push_work(obj(0x10000, 0));
    st.request_fallback(FallbackReason::SliceTimeout);
    let r = mark_slice(&mut st, &mut pages, &vec![0], 10, MASK, &trace, 0, 0);
    assert_eq!(r, MarkSliceResult::Fallback { reason: FallbackReason::SliceTimeout });
    assert_eq!(st.worklist_len(), 1);
    assert!(!pages[0].page.header.is_marked(0));
}

#[test]
fn slice_falls_back_when_the_worklist_grows_without_bound() {
    let mut st = IncrementalMarkState::new();
    st.push_work(0x10);
    let r = st.conclude_slice(0, 0, 0, 0, 0);
    assert_eq!(r, MarkSliceResult::Pending { objects_marked: 0, dirty_pages_remaining: 0 });
    for i in 0..20 {
        st.push_work(0x100 + i);
    }
    let r = st.conclude_slice(0, 0, 0, 0, 0);
    assert_eq!(r, MarkSliceResult::Fallback { reason: FallbackReason::WorklistUnbounded });
}

#[test]
fn slice_times_out() {
    let mut pages = vec![page_at(0x10000)];
    let trace = |_p: usize| vec![];
    let mut st = IncrementalMarkState::new();
    st.push_work(obj(0x10000, 0));
    let r = mark_slice(&mut st, &mut pages, &vec![], 10, MASK, &trace, 51, 0);
    assert_eq!(r, MarkSliceResult::Fallback { reason: FallbackReason::SliceTimeout });
}
