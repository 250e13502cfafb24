use rcore_os::allocator::Heap;

type Source = fn() -> Option<usize>;

fn fresh_heap(addr: usize, capacity: usize) -> Heap<Source> {
    let mut heap: Heap<Source> = Heap::new();
    heap.init(addr, capacity);
    heap
}

#[test]
fn first_allocations_are_carved_in_order() {
    let mut heap = fresh_heap(0x1000, 4096);
    // the first free block starts two words after the root block; its header is one word
    assert_eq!(heap.allocate(8, 8), 0x1018);
    // the rest of the block follows the footer of the first allocation
    assert_eq!(heap.allocate(8, 8), 0x1028);
    assert_eq!(heap.allocate(16, 8), 0x1038);
}

#[test]
fn released_block_is_reused() {
    let mut heap = fresh_heap(0x1000, 4096);
    let a = heap.allocate(8, 8);
    let b = heap.allocate(8, 8);
    assert_eq!((a, b), (0x1018, 0x1028));
    heap.deallocate(a);
    assert_eq!(heap.allocate(8, 8), a);
}

#[test]
fn sizes_are_rounded_to_words() {
    let mut heap = fresh_heap(0x1000, 4096);
    let a = heap.allocate(3, 1);
    let b = heap.allocate(1, 1);
    assert_eq!(a, 0x1018);
    // three bytes take one word of payload, then a footer and the next header
    assert_eq!(b, 0x1028);
}

#[test]
fn zero_bytes_are_served_as_one() {
    let mut heap = fresh_heap(0x1000, 4096);
    assert_eq!(heap.allocate(0, 1), 0x1018);
    assert_eq!(heap.allocate(0, 1), 0x1028);
}

#[test]
fn alignment_over_a_word_or_not_a_power_of_two_is_refused() {
    let mut heap = fresh_heap(0x1000, 4096);
    assert_eq!(heap.allocate(8, 16), 0);
    assert_eq!(heap.allocate(8, 3), 0);
    assert_eq!(heap.allocate(8, 0), 0);
    // the heap is untouched: the next allocation is still the first block
    assert_eq!(heap.allocate(8, 8), 0x1018);
}

#[test]
fn too_large_request_fails_without_source() {
    let mut heap = fresh_heap(0x1000, 64);
    // the free block holds 64 - 3 words = 40 bytes
    assert_eq!(heap.allocate(48, 8), 0);
    assert_eq!(heap.allocate(40, 8), 0x1018);
    assert_eq!(heap.allocate(8, 8), 0);
}

#[test]
fn exact_fit_takes_the_whole_block() {
    let mut heap = fresh_heap(0x1000, 64);
    // 40 bytes fit exactly; 32 would leave 8, too little for a block of its own
    assert_eq!(heap.allocate(32, 8), 0x1018);
    assert_eq!(heap.allocate(8, 8), 0);
}

#[test]
fn neighbours_coalesce_on_release() {
    let mut heap = fresh_heap(0x1000, 256);
    let a = heap.allocate(32, 8);
    let b = heap.allocate(32, 8);
    let c = heap.allocate(32, 8);
    // each block's footer shares the last word of the block before the next header
    assert_eq!((a, b, c), (0x1018, 0x1040, 0x1068));
    heap.deallocate(a);
    heap.deallocate(b);
    // a and b merged: 32 + 32 + the word between them
    assert_eq!(heap.allocate(72, 8), a);
}

#[test]
fn release_merges_with_the_free_rest() {
    let mut heap = fresh_heap(0x1000, 128);
    let a = heap.allocate(8, 8);
    heap.deallocate(a);
    // everything is one free block again: 128 - 3 words
    assert_eq!(heap.allocate(104, 8), 0x1018);
}

fn one_page() -> Option<usize> {
    Some(4096)
}

#[test]
fn heap_grows_from_its_source() {
    let mut heap = fresh_heap(0x1000, 64);
    heap.set_apply_more(one_page as Source);
    let a = heap.allocate(1000, 8);
    assert_ne!(a, 0);
    assert_eq!(a % 8, 0);
    assert!(a >= 0x1000 && a < 0x1000 + 64 + 4096);
}

fn nothing_more() -> Option<usize> {
    None
}

#[test]
fn refusing_source_leaves_the_request_unserved() {
    let mut heap = fresh_heap(0x1000, 64);
    heap.set_apply_more(nothing_more as Source);
    assert_eq!(heap.allocate(1000, 8), 0);
    assert_eq!(heap.allocate(8, 8), 0x1018);
}

#[test]
fn without_a_source_a_full_heap_stays_as_it_is() {
    let mut heap = fresh_heap(0x1000, 64);
    assert_eq!(heap.allocate(8, 8), 0x1018);
    assert_eq!(heap.allocate(8, 8), 0x1028);
    assert_eq!(heap.allocate(8, 8), 0x1038);
    assert_eq!(heap.allocate(8, 8), 0);
    assert_eq!(heap.allocate(8, 8), 0);
}

#[test]
fn alignment_is_checked_before_the_heap_is_used() {
    let mut heap: Heap<Source> = Heap::new();
    assert_eq!(heap.allocate(8, 16), 0);
}

fn two_words() -> Option<usize> {
    Some(16)
}

#[test]
fn grants_append_blocks_at_the_end() {
    let mut heap = fresh_heap(0x1000, 64);
    heap.set_apply_more(one_page as Source);
    // the free block holds 40 bytes; 48 do not fit, so the heap grows by a page at 0x1040
    // and the grant merges with the free block before it
    assert_eq!(heap.allocate(48, 8), 0x1018);
    let mut small = fresh_heap(0x1000, 64);
    small.set_apply_more(two_words as Source);
    // each grant of 16 bytes adds 16 bytes of capacity to the free block at the end
    assert_eq!(small.allocate(72, 8), 0x1018);
}
