use core::mem::size_of;
use nanvm_lib::mem::field_layout::{align_to, FieldLayout};
use nanvm_lib::mem::flexible_array::{FlexibleArray, FlexibleArrayConstructor, FlexibleArrayHeader};
use nanvm_lib::mem::ref_counter::{BlockHeader, GlobalHeader, RefCounterUpdate, RefUpdate};

#[test]
fn field_layout_align_to() {
    let a = FieldLayout::<u32, u8>::align_to(1);
    assert!(a.align == 4 && a.size == 4);
    let a = FieldLayout::<u32, u8>::align_to(8);
    assert!(a.align == 8 && a.size == 8);
    let a = FieldLayout::<[u8; 3], u8>::align_to(4);
    assert!(a.align == 4 && a.size == 4);
}

#[test]
fn align_to_rounds_up() {
    assert_eq!(align_to(0, 8), 0);
    assert_eq!(align_to(1, 8), 8);
    assert_eq!(align_to(8, 8), 8);
    assert_eq!(align_to(9, 4), 12);
    assert_eq!(align_to(5, 1), 5);
}

#[test]
fn flexible_size_counts_header_and_items() {
    let header = size_of::<usize>();
    assert_eq!(FlexibleArray::<u8, usize>::flexible_size(5), header + 5);
    assert_eq!(FlexibleArray::<u32, usize>::flexible_size(3), header + 12);
    assert_eq!(FlexibleArray::<u64, usize>::flexible_size(0), header);
}

#[test]
fn usize_header() {
    assert_eq!(5usize.len(), 5);
    assert!(0usize.is_empty());
    let c: FlexibleArrayConstructor<usize, [u8; 2]> = 2usize.constructor([1, 2]);
    assert_eq!(c.header, 2);
    assert_eq!(c.items, [1, 2]);
}

#[test]
fn cell_isize_test() {
    let mut x: isize = 0;
    assert_eq!(x, 0);
    assert_eq!(x.ref_counter_update(RefCounterUpdate::Read), 0);
    assert_eq!(x.ref_counter_update(RefCounterUpdate::AddRef), 0);
    assert_eq!(x.ref_counter_update(RefCounterUpdate::Release), 1);
    assert_eq!(x.ref_counter_update(RefCounterUpdate::Read), 0);
    assert_eq!(x.ref_counter_update(RefCounterUpdate::Release), 0);
    assert_eq!(x.ref_counter_update(RefCounterUpdate::Read), -1);
}

#[test]
fn test_cell() {
    let mut x: isize = isize::default();
    assert_eq!(x, 0);
    assert_eq!(x.ref_counter_update(RefCounterUpdate::Read), 0);
    assert_eq!(x.ref_counter_update(RefCounterUpdate::AddRef), 0);
    assert_eq!(x.ref_counter_update(RefCounterUpdate::Release), 1);
    assert_eq!(x.ref_counter_update(RefCounterUpdate::Read), 0);
    assert_eq!(x.ref_counter_update(RefCounterUpdate::Release), 0);
    assert_eq!(x.ref_counter_update(RefCounterUpdate::Read), -1);
}

#[test]
fn update_amounts() {
    assert_eq!(RefCounterUpdate::AddRef.delta(), 1);
    assert_eq!(RefCounterUpdate::Read.delta(), 0);
    assert_eq!(RefCounterUpdate::Release.delta(), -1);
    assert_eq!(RefUpdate::AddRef.delta(), 1);
    assert_eq!(RefUpdate::Read.delta(), 0);
    assert_eq!(RefUpdate::Release.delta(), -1);
}

#[test]
fn global_header_starts_at_one() {
    let mut h = GlobalHeader::default();
    assert_eq!(h.ref_update(RefUpdate::Read), 1);
    assert_eq!(h.ref_update(RefUpdate::AddRef), 1);
    assert_eq!(h.ref_update(RefUpdate::Read), 2);
    assert_eq!(h.ref_update(RefUpdate::Release), 2);
    assert_eq!(h.ref_update(RefUpdate::Release), 1);
    assert_eq!(h.ref_update(RefUpdate::Read), 0);
}

#[test]
fn release_undoes_add_ref() {
    let mut x: isize = 7;
    x.ref_counter_update(RefCounterUpdate::AddRef);
    x.ref_counter_update(RefCounterUpdate::Release);
    assert_eq!(x, 7);
    x.ref_counter_update(RefCounterUpdate::Read);
    assert_eq!(x, 7);
}

#[test]
fn test_u8_5() {
    let v = FlexibleArray::<u8, u16> { header: 5, _0: core::marker::PhantomData };
    assert_eq!(v.header.len(), 5);
    assert_eq!(v.object_size(), 7);
}

#[test]
fn test_u32_3() {
    let v = FlexibleArray::<u32, u16> { header: 3, _0: core::marker::PhantomData };
    assert_eq!(v.header.len(), 3);
    assert_eq!(v.object_size(), 16);
}

fn generic_test<H: FlexibleArrayHeader + Copy, I>(header: H, n: usize, size: usize) {
    let v = FlexibleArray::<I, H> { header, _0: core::marker::PhantomData };
    assert_eq!(v.header.len(), n);
    assert_eq!(v.object_size(), size);
}

#[test]
fn test1() {
    generic_test::<u8, u8>(1, 1, 2);
    generic_test::<u16, u32>(6, 6, 28);
    generic_test::<u16, u8>(3, 3, 5);
}
