use ros_core::bin::Allocator;
use ros_core::bitmap::Bitmap;
use ros_core::buddy::BuddyBlockAllocator;
use ros_core::heap;
use ros_core::linked_list::LinkedList;

const PAGE: usize = 1 << 14;

#[test]
fn bitmap_set_get_toggle() {
    let mut b = Bitmap::new(20);
    assert_eq!(b.length(), 20);
    assert_eq!(Bitmap::width(20), 3);
    assert_eq!(b.length_bytes(), 3);
    assert!(!b.get_bit(7));
    b.set_bit(7);
    assert!(b.get_bit(7));
    assert!(!b.get_bit(6));
    b.toggle_bit(7);
    assert!(!b.get_bit(7));
    b.toggle_bit(19);
    assert!(b.get_bit(19));
    b.clear_bit(19);
    assert!(!b.get_bit(19));
    b.set_bit(0);
    b.zero();
    assert!(!b.get_bit(0));
}

#[test]
fn bitmap_iter_walks_bits() {
    let mut b = Bitmap::new(10);
    b.set_bit(3);
    let mut it = b.iter();
    let mut seen = Vec::new();
    while let Some(bit) = it.next() {
        seen.push(bit);
    }
    assert_eq!(seen.len(), 10);
    assert!(seen[3]);
    assert!(!seen[2]);
}

#[test]
fn linked_list_push_pop_peek_remove() {
    let mut l = LinkedList::new();
    assert!(l.is_empty());
    l.push(16384);
    l.push(32768);
    assert!(!l.is_empty());
    assert_eq!(l.peek(), Some(32768));
    l.remove(16384);
    assert_eq!(l.pop(), Some(32768));
    assert_eq!(l.pop(), None);
    let mut l2 = LinkedList::new();
    l2.push(1);
    l2.push(2);
    l2.push(3);
    let mut it = l2.iter();
    assert_eq!(it.next(), Some(1));
    assert_eq!(it.next(), Some(2));
    assert_eq!(it.next(), Some(3));
    assert_eq!(it.next(), None);
}

// Repeated smallest-order allocations drain exactly the pages left after
// the bitmap reservation: a 1 MiB region with 16 KiB pages and a largest
// block of order 4 loses one page to the bitmaps and yields 63.
#[test]
fn buddy_exhaustion_counts_seeded_pages() {
    let mut a = BuddyBlockAllocator::new(0, 0x0010_0000, 14, 4);
    let mut count = 0usize;
    loop {
        match a.allocate(0) {
            Ok(_) => count += 1,
            Err(_) => break,
        }
    }
    assert_eq!(count, 63);
}

// Two order-0 buddies freed in either order coalesce: the next order-1
// allocation hands back their union block.
#[test]
fn buddy_coalesce_restores_union_block() {
    let mut a = BuddyBlockAllocator::new(0, 0x0010_0000, 14, 4);
    // drain the seeded order-0 page so the next two come from a split
    // of one order-1 block, which makes them buddies
    let _first = a.allocate(0).unwrap();
    let x = a.allocate(0).unwrap();
    let y = a.allocate(0).unwrap();
    assert_eq!(x, y + PAGE);
    let low = y;
    a.free(x, 0);
    a.free(y, 0);
    let merged = a.allocate(1).unwrap();
    assert_eq!(merged, low);
    // and its halves are what was freed
    a.free(merged, 1);
    let h0 = a.allocate(0).unwrap();
    let h1 = a.allocate(0).unwrap();
    assert!(h0 == low || h0 == low + PAGE);
    assert!(h1 == low || h1 == low + PAGE);
    assert_ne!(h0, h1);
}

// Block addresses returned at order k are aligned to the block size
// within the managed region.
#[test]
fn buddy_alignment_relative_to_region() {
    let mut a = BuddyBlockAllocator::new(0, 0x0010_0000, 14, 4);
    // the managed region starts one page in: the bitmaps take the first
    // bytes and the base is aligned up to a page boundary
    let mem_start = 16384usize;
    assert_eq!(a.floor_alloc(mem_start + 5, 0), mem_start);
    for order in 0..3usize {
        let p = a.allocate(order).unwrap();
        assert_eq!((p - mem_start) % (PAGE << order), 0, "order {}", order);
        assert_eq!(p % PAGE, 0, "page alignment at order {}", order);
    }
}

// Freed slab slots are reused before any new slab is drawn from the
// buddy allocator.
#[test]
fn slab_reuse_before_new_slab() {
    let mut a = Allocator::new(0, 0x0040_0000);
    let mut addrs = Vec::new();
    for _ in 0..256 {
        let p = a.allocate(16, 1).unwrap();
        assert_eq!(p % 16, 0);
        addrs.push(p);
    }
    let mut freed = Vec::new();
    for (i, p) in addrs.iter().enumerate() {
        if i % 2 == 0 {
            a.dealloc(*p, 16, 1);
            freed.push(*p);
        }
    }
    for _ in 0..128 {
        let p = a.allocate(16, 1).unwrap();
        assert!(freed.contains(&p), "address {:#x} was not a freed slot", p);
    }
}

// The user-facing allocator honors the requested power-of-two alignment,
// through the bins and through the buddy route alike.
#[test]
fn allocator_alignment_honored() {
    let mut a = Allocator::new(0, 0x0040_0000);
    for shift in 0..14u32 {
        let align = 1usize << shift;
        let p = a.allocate(24, align).unwrap();
        assert_eq!(p % align, 0, "align {}", align);
        a.dealloc(p, 24, align);
    }
    // larger than the biggest slab: served by the buddy allocator
    let big = a.allocate(40000, 8).unwrap();
    assert_eq!(big % 8, 0);
    a.dealloc(big, 40000, 8);
}

#[test]
fn heap_facade_initialize_then_allocate() {
    let mut h = heap::Allocator::uninitialized();
    h.initialize(0, 0x0040_0000);
    let p = h.allocate(64, 8).unwrap();
    assert_eq!(p % 8, 0);
    h.dealloc(p, 64, 8);
    let q = h.allocate(64, 8).unwrap();
    assert_eq!(q % 8, 0);
}

// An impossible request is refused rather than served.
#[test]
fn allocator_refuses_oversized_request() {
    let mut a = Allocator::new(0, 0x0010_0000);
    // far beyond the region's total capacity
    assert!(a.allocate(1 << 30, 1).is_err());
}
