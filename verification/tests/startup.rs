use r9xrsrt::entry::{exit_code, DllMainCRTStartup, DLL_PROCESS_ATTACH, DLL_PROCESS_DETACH, TRUE};
use r9xrsrt::static_init::next_filled_slot;

#[test]
fn dll_attach_runs_static_init() {
    let r = DllMainCRTStartup(DLL_PROCESS_ATTACH);
    assert!(r.run_static_init);
    assert_eq!(r.result, TRUE);
    assert_eq!(DLL_PROCESS_ATTACH, 1);
}

#[test]
fn other_notifications_do_nothing_and_succeed() {
    for reason in [DLL_PROCESS_DETACH, 2, 3, 7, u32::MAX] {
        let r = DllMainCRTStartup(reason);
        assert!(!r.run_static_init);
        assert_eq!(r.result, 1);
    }
}

#[test]
fn exit_code_keeps_the_bits() {
    assert_eq!(exit_code(0), 0);
    assert_eq!(exit_code(3), 3);
    assert_eq!(exit_code(-1), u32::MAX);
    assert_eq!(exit_code(i32::MIN), 0x8000_0000);
    assert_eq!(exit_code(i32::MAX), 0x7fff_ffff);
}

fn walk<T>(slots: &[Option<T>]) -> Vec<usize> {
    let mut order = Vec::new();
    let mut from = 0;
    while let Some(i) = next_filled_slot(slots, from) {
        order.push(i);
        from = i + 1;
    }
    order
}

#[test]
fn next_filled_slot_finds_the_first_filled_slot() {
    let slots: [Option<u32>; 6] = [None, Some(10), Some(11), None, None, Some(12)];
    assert_eq!(next_filled_slot(&slots, 0), Some(1));
    assert_eq!(next_filled_slot(&slots, 1), Some(1));
    assert_eq!(next_filled_slot(&slots, 2), Some(2));
    assert_eq!(next_filled_slot(&slots, 3), Some(5));
    assert_eq!(next_filled_slot(&slots, 6), None);
    assert_eq!(next_filled_slot(&slots, 100), None);
    let tail: [Option<u32>; 3] = [Some(1), None, None];
    assert_eq!(next_filled_slot(&tail, 1), None);
}

#[test]
fn static_init_walk_skips_empty_slots_in_order() {
    let slots: [Option<u32>; 6] = [None, Some(10), Some(11), None, None, Some(12)];
    assert_eq!(walk(&slots), vec![1, 2, 5]);
    let empty: [Option<u32>; 0] = [];
    assert!(walk(&empty).is_empty());
    let none: [Option<u32>; 3] = [None, None, None];
    assert!(walk(&none).is_empty());
}

#[test]
fn static_init_with_function_slots() {
    fn a() -> u32 {
        1
    }
    fn b() -> u32 {
        2
    }
    let slots: [Option<fn() -> u32>; 4] = [Some(a), None, Some(b), None];
    let ran: Vec<u32> = walk(&slots).iter().map(|&i| (slots[i].unwrap())()).collect();
    assert_eq!(ran, vec![1, 2]);
}
