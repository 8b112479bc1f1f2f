use memapi::location::{CallSiteId, FunctionId, FunctionLocation};
use memapi::memorytracking::{
    add_allocation, can_add_allocation, dump_peak_to_flamegraph, free_allocation, free_anon_mmap,
    get_allocation_size, reset,
};
use memapi::stack::Callstack;
use memapi::tracker::AllocationTracker;

#[test]
fn peak_allocations_only_updated_on_new_peaks() {
    let func1 = FunctionLocation::from_strings("a", "af");
    let func3 = FunctionLocation::from_strings("b", "bf");
    let fid1 = FunctionId::new(&func1);
    let fid3 = FunctionId::new(&func3);

    let mut tracker = AllocationTracker::new(".".to_string());
    let mut cs1 = Callstack::new();
    cs1.start_call(0, CallSiteId::new(fid1, 2));
    let mut cs2 = Callstack::new();
    cs2.start_call(0, CallSiteId::new(fid3, 4));

    tracker.add_allocation(1, 1000, &cs1);
    tracker.check_if_new_peak();
    // Peak should now match current allocations:
    assert_eq!(tracker.current_memory_usage(), vec![1000]);
    assert_eq!(tracker.current_memory_usage(), tracker.peak_memory_usage());
    assert_eq!(tracker.peak_allocated_bytes(), 1000);
    let previous_peak = tracker.peak_memory_usage().clone();

    // Free the allocation:
    tracker.free_allocation(1);
    assert_eq!(tracker.current_allocated_bytes(), 0);
    assert_eq!(tracker.current_memory_usage(), vec![0]);
    assert_eq!(previous_peak, tracker.peak_memory_usage());
    assert_eq!(tracker.peak_allocated_bytes(), 1000);

    // Add allocation, still less than 1000:
    tracker.add_allocation(3, 123, &cs1);
    assert_eq!(tracker.current_memory_usage(), vec![123]);
    tracker.check_if_new_peak();
    assert_eq!(previous_peak, tracker.peak_memory_usage());
    assert_eq!(tracker.peak_allocated_bytes(), 1000);

    // Add allocation that goes past previous peak
    tracker.add_allocation(2, 2000, &cs2);
    tracker.check_if_new_peak();
    assert_eq!(tracker.current_memory_usage(), vec![123, 2000]);
    assert_eq!(tracker.current_memory_usage(), tracker.peak_memory_usage());
    assert_eq!(tracker.peak_allocated_bytes(), 2123);
    let previous_peak = tracker.peak_memory_usage().clone();

    // Add anonymous mmap() that doesn't go past previous peak:
    tracker.free_allocation(2);
    assert_eq!(tracker.current_memory_usage(), vec![123, 0]);
    tracker.add_anon_mmap(50000, 1000, &cs2);
    assert_eq!(tracker.current_memory_usage(), vec![123, 1000]);
    tracker.check_if_new_peak();
    assert_eq!(tracker.current_allocated_bytes(), 1123);
    assert_eq!(tracker.peak_allocated_bytes(), 2123);
    assert_eq!(tracker.peak_memory_usage(), previous_peak);
    assert_eq!(tracker.current_allocations().len(), 1);
    assert!(tracker.current_allocations().contains_key(&3));
    assert!(tracker.current_anon_mmaps().size() > 0);

    // Add anonymous mmap() that does go past previous peak:
    tracker.add_anon_mmap(600000, 2000, &cs2);
    assert_eq!(tracker.current_memory_usage(), vec![123, 3000]);
    tracker.check_if_new_peak();
    assert_eq!(tracker.current_memory_usage(), tracker.peak_memory_usage());
    assert_eq!(tracker.current_allocated_bytes(), 3123);
    assert_eq!(tracker.peak_allocated_bytes(), 3123);

    // Remove mmap():
    tracker.free_anon_mmap(50000, 1000);
    assert_eq!(tracker.current_memory_usage(), vec![123, 2000]);
    tracker.check_if_new_peak();
    assert_eq!(tracker.current_allocated_bytes(), 2123);
    assert_eq!(tracker.peak_allocated_bytes(), 3123);
    assert_eq!(tracker.current_anon_mmaps().size(), 2000);
    assert!(tracker
        .current_anon_mmaps()
        .as_hashmap()
        .contains_key(&600000));

    // Partial removal of anonmyous mmap():
    tracker.free_anon_mmap(600100, 1000);
    assert_eq!(tracker.current_memory_usage(), vec![123, 1000]);
    assert_eq!(tracker.current_allocated_bytes(), 1123);
    assert_eq!(tracker.peak_allocated_bytes(), 3123);
    assert_eq!(tracker.current_anon_mmaps().size(), 1000);
}

#[test]
fn combine_callstacks_and_sum_allocations() {
    let func1 = FunctionLocation::from_strings("a", "af");
    let func2 = FunctionLocation::from_strings("b", "bf");
    let func3 = FunctionLocation::from_strings("c", "cf");

    let fid1 = FunctionId::new(&func1);
    let fid2 = FunctionId::new(&func2);
    let fid3 = FunctionId::new(&func3);

    let mut tracker = AllocationTracker::new(".".to_string());
    let id1 = CallSiteId::new(fid1, 1);
    // Same function, different line number—should be different item:
    let id1_different = CallSiteId::new(fid1, 7);
    let id2 = CallSiteId::new(fid2, 2);

    let id3 = CallSiteId::new(fid3, 3);
    let mut cs1 = Callstack::new();
    cs1.start_call(0, id1);
    cs1.start_call(0, id2.clone());
    let mut cs2 = Callstack::new();
    cs2.start_call(0, id3);
    let mut cs3 = Callstack::new();
    cs3.start_call(0, id1_different);
    cs3.start_call(0, id2);

    tracker.add_allocation(1, 1000, &cs1);
    tracker.add_allocation(2, 234, &cs2);
    tracker.add_anon_mmap(3, 50000, &cs1);
    tracker.add_allocation(4, 6000, &cs3);

    let mut expected = vec![
        "a:1 (af);TB@@a:1@@TB;b:2 (bf);TB@@b:2@@TB 51000".to_string(),
        "c:3 (cf);TB@@c:3@@TB 234".to_string(),
        "a:7 (af);TB@@a:7@@TB;b:2 (bf);TB@@b:2@@TB 6000".to_string(),
    ];
    let mut result: Vec<String> = tracker.to_lines(true, true);
    result.sort();
    expected.sort();
    assert_eq!(expected, result);

    let mut expected2 = vec![
        "a:1 (af);b:2 (bf) 51000",
        "c:3 (cf) 234",
        "a:7 (af);b:2 (bf) 6000",
    ];
    let mut result2: Vec<String> = tracker.to_lines(true, false);
    result2.sort();
    expected2.sort();
    assert_eq!(expected2, result2);
}

#[test]
fn to_lines_of_what_is_live_counts_from_the_tables() {
    let func1 = FunctionLocation::from_strings("a", "af");
    let func2 = FunctionLocation::from_strings("b", "bf");
    let mut cs1 = Callstack::new();
    cs1.start_call(0, CallSiteId::new(FunctionId::new(&func1), 1));
    let mut cs2 = Callstack::new();
    cs2.start_call(0, CallSiteId::new(FunctionId::new(&func2), 2));
    let mut cs3 = Callstack::new();
    cs3.start_call(0, CallSiteId::new(FunctionId::new(&func2), 3));

    let mut tracker = AllocationTracker::new(".".to_string());
    tracker.add_allocation(1, 1000, &cs1);
    tracker.add_allocation(2, 234, &cs2);
    tracker.add_anon_mmap(4096, 50000, &cs1);
    tracker.add_allocation(5, 60, &cs3);
    tracker.add_allocation(6, 0, &cs2);
    tracker.free_allocation(5);
    tracker.free_allocation(2);

    // In order of the stacks' numbers. The second stack still has a live
    // allocation, of no bytes; the third has none.
    assert_eq!(
        tracker.to_lines(false, false),
        vec!["a:1 (af) 51000", "b:2 (bf) 0"]
    );
    assert_eq!(tracker.combine_callstacks(false), vec![(0, 51000), (1, 0)]);
    // At the peak all three held bytes.
    assert_eq!(
        tracker.combine_callstacks(true),
        vec![(0, 51000), (1, 234), (2, 60)]
    );
    assert_eq!(
        tracker.to_lines(true, false),
        vec!["a:1 (af) 51000", "b:2 (bf) 234", "b:3 (bf) 60"]
    );
}

#[test]
fn peak_is_taken_before_a_free_and_kept() {
    let func = FunctionLocation::from_strings("a", "af");
    let mut cs = Callstack::new();
    cs.start_call(0, CallSiteId::new(FunctionId::new(&func), 1));

    let mut tracker = AllocationTracker::new(".".to_string());
    tracker.add_allocation(1, 1000, &cs);
    assert_eq!(tracker.interner().find(&cs), Some(0));
    assert_eq!(tracker.current_memory_usage(), vec![1000]);
    assert_eq!(tracker.peak_memory_usage(), vec![0]);
    assert_eq!(tracker.peak_allocated_bytes(), 0);

    tracker.free_allocation(1);
    assert_eq!(tracker.peak_memory_usage(), vec![1000]);
    assert_eq!(tracker.peak_allocated_bytes(), 1000);
    assert_eq!(tracker.current_memory_usage(), vec![0]);

    tracker.add_allocation(2, 500, &cs);
    assert_eq!(tracker.to_lines(true, false), vec!["a:1 (af) 1000"]);
}

#[test]
fn a_peak_at_the_end_is_found_when_a_report_is_made() {
    let func = FunctionLocation::from_strings("a", "af");
    let mut cs = Callstack::new();
    cs.start_call(0, CallSiteId::new(FunctionId::new(&func), 1));
    let mut tracker = AllocationTracker::new(".".to_string());
    tracker.add_allocation(1, 10, &cs);
    tracker.add_allocation(2, 20, &cs);
    assert_eq!(tracker.peak_allocated_bytes(), 0);
    assert_eq!(tracker.to_lines(true, false), vec!["a:1 (af) 30"]);
    assert_eq!(tracker.peak_allocated_bytes(), 30);
    assert_eq!(tracker.peak_memory_usage(), vec![30]);
}

#[test]
fn partial_unmap_leaves_the_rest_of_a_mapping() {
    let func = FunctionLocation::from_strings("a", "af");
    let mut cs = Callstack::new();
    cs.start_call(0, CallSiteId::new(FunctionId::new(&func), 1));
    let mut tracker = AllocationTracker::new(".".to_string());
    tracker.add_anon_mmap(1000, 500, &cs);
    tracker.free_anon_mmap(1100, 200);
    let live = tracker.current_anon_mmaps().as_hashmap();
    assert_eq!(live.len(), 2);
    assert_eq!(live.get(&1000), Some(&(100, 0)));
    assert_eq!(live.get(&1300), Some(&(200, 0)));
    assert_eq!(tracker.current_anon_mmaps().size(), 300);
    assert_eq!(tracker.current_allocated_bytes(), 300);
    assert_eq!(tracker.current_memory_usage(), vec![300]);
}

#[test]
fn interval_split_of_the_second_of_two_mappings() {
    let func = FunctionLocation::from_strings("a", "af");
    let mut cs = Callstack::new();
    cs.start_call(0, CallSiteId::new(FunctionId::new(&func), 1));
    let mut tracker = AllocationTracker::new(".".to_string());
    tracker.add_anon_mmap(50000, 1000, &cs);
    tracker.add_anon_mmap(600000, 2000, &cs);
    tracker.free_anon_mmap(600100, 1000);
    assert_eq!(tracker.current_allocated_bytes(), 2000);
    let live = tracker.current_anon_mmaps().as_hashmap();
    assert_eq!(live.len(), 3);
    assert_eq!(live.get(&50000), Some(&(1000, 0)));
    assert_eq!(live.get(&600000), Some(&(100, 0)));
    assert_eq!(live.get(&601100), Some(&(900, 0)));
    assert_eq!(tracker.to_lines(false, false), vec!["a:1 (af) 2000"]);
}

#[test]
fn unmapping_across_mappings_of_two_stacks() {
    let func = FunctionLocation::from_strings("a", "af");
    let mut cs1 = Callstack::new();
    cs1.start_call(0, CallSiteId::new(FunctionId::new(&func), 1));
    let mut cs2 = Callstack::new();
    cs2.start_call(0, CallSiteId::new(FunctionId::new(&func), 2));
    let mut tracker = AllocationTracker::new(".".to_string());
    tracker.add_anon_mmap(4096, 4096, &cs1);
    tracker.add_anon_mmap(8192, 4096, &cs2);
    tracker.add_anon_mmap(16384, 4096, &cs1);
    tracker.free_anon_mmap(6000, 12000);
    assert_eq!(
        tracker.current_memory_usage(),
        vec![(6000 - 4096) + (16384 + 4096 - 18000), 0]
    );
    assert_eq!(tracker.current_allocated_bytes(), 1904 + 2480);
    assert_eq!(tracker.peak_allocated_bytes(), 3 * 4096);
    assert_eq!(tracker.peak_memory_usage(), vec![8192, 4096]);
}

#[test]
fn freeing_an_unknown_address_changes_nothing() {
    let mut tracker = AllocationTracker::new(".".to_string());
    tracker.free_allocation(99);
    assert_eq!(tracker.current_allocated_bytes(), 0);
    assert_eq!(tracker.peak_allocated_bytes(), 0);
    assert_eq!(tracker.current_memory_usage(), vec![]);
    assert_eq!(tracker.peak_memory_usage(), vec![]);
    assert_eq!(tracker.current_allocations().len(), 0);

    let func = FunctionLocation::from_strings("a", "af");
    let mut cs = Callstack::new();
    cs.start_call(0, CallSiteId::new(FunctionId::new(&func), 1));
    tracker.add_allocation(1, 1000, &cs);
    tracker.free_allocation(99);
    tracker.free_anon_mmap(99, 10);
    assert_eq!(tracker.current_allocated_bytes(), 1000);
    assert_eq!(tracker.current_memory_usage(), vec![1000]);
    assert_eq!(tracker.current_allocations().len(), 1);
    assert_eq!(tracker.get_allocation_size(1), 1000);
    assert_eq!(tracker.get_allocation_size(99), 0);
}

#[test]
fn an_empty_stack_has_a_line_of_its_own() {
    let mut tracker = AllocationTracker::new(".".to_string());
    tracker.add_allocation(7, 42, &Callstack::new());
    assert_eq!(tracker.to_lines(false, false), vec!["[No Python stack] 42"]);
    assert_eq!(tracker.to_lines(true, true), vec!["[No Python stack] 42"]);
}

#[test]
fn three_gib_are_counted_as_stored_and_freed_to_zero() {
    let mut tracker = AllocationTracker::new(".".to_string());
    let size: usize = (3 << 30) + 300000;
    tracker.add_allocation(1, size, &Callstack::new());
    let counted = tracker.current_allocated_bytes();
    assert_eq!(counted, 3 << 30);
    assert!(counted + (512 << 10) >= size && counted <= size + (512 << 10));
    assert_eq!(tracker.get_allocation_size(1), 3 << 30);
    assert_eq!(tracker.current_memory_usage(), vec![3 << 30]);
    tracker.free_allocation(1);
    assert_eq!(tracker.current_allocated_bytes(), 0);
    assert_eq!(tracker.current_memory_usage(), vec![0]);
}

#[test]
fn sizes_of_any_magnitude_are_freed_to_zero() {
    let mut size: usize = 1;
    while size < 1 << 50 {
        let mut tracker = AllocationTracker::new(".".to_string());
        tracker.add_allocation(8, size, &Callstack::new());
        tracker.add_anon_mmap(4096, size * 2, &Callstack::new());
        let counted = tracker.current_memory_usage()[0];
        assert!(counted * 1000 > size * 3 * 999 && counted * 999 < size * 3 * 1000);
        tracker.free_allocation(8);
        tracker.free_anon_mmap(4096, size * 2);
        assert_eq!(tracker.current_memory_usage(), vec![0]);
        assert_eq!(tracker.current_allocated_bytes(), 0);
        size = size * 3 + 1;
    }
}

#[test]
fn totals_follow_allocations_and_frees() {
    let funcs: Vec<FunctionLocation> = (0..12)
        .map(|i| FunctionLocation::from_strings("m.py", &format!("f{}", i)))
        .collect();
    let sizes: Vec<usize> = vec![5, 999, 17, 1, 250, 640, 77, 3, 512, 90, 8, 444];
    let mut tracker = AllocationTracker::new(".".to_string());
    let mut expected: Vec<usize> = vec![];
    for i in 0..sizes.len() {
        let mut cs = Callstack::new();
        cs.start_call(0, CallSiteId::new(FunctionId::new(&funcs[i]), 0));
        tracker.add_allocation(i + 1, sizes[i], &cs);
        expected.push(sizes[i]);
    }
    let mut expected_sum: usize = sizes.iter().sum();
    let expected_peak = expected_sum;
    assert_eq!(tracker.current_allocated_bytes(), expected_sum);
    assert_eq!(tracker.current_memory_usage(), expected);
    for i in [0usize, 3, 4, 9] {
        expected_sum -= sizes[i];
        tracker.free_allocation(i + 1);
        expected[i] -= sizes[i];
        assert_eq!(tracker.current_allocated_bytes(), expected_sum);
        assert_eq!(tracker.current_memory_usage(), expected);
    }
    assert_eq!(tracker.peak_allocated_bytes(), expected_peak);
    assert_eq!(tracker.peak_memory_usage().len(), tracker.current_memory_usage().len());
    assert_eq!(tracker.interner().len(), sizes.len());
}

#[test]
fn totals_follow_mappings_and_unmappings() {
    let funcs: Vec<FunctionLocation> = (0..12)
        .map(|i| FunctionLocation::from_strings("m.py", &format!("f{}", i)))
        .collect();
    let sizes: Vec<usize> = vec![5, 999, 17, 1, 250, 640, 77, 3, 512, 90, 8, 444];
    let mut tracker = AllocationTracker::new(".".to_string());
    let mut expected: Vec<usize> = vec![];
    for i in 0..sizes.len() {
        let mut cs = Callstack::new();
        cs.start_call(0, CallSiteId::new(FunctionId::new(&funcs[i]), 0));
        tracker.add_anon_mmap(i * 10000, sizes[i], &cs);
        expected.push(sizes[i]);
    }
    let mut expected_sum: usize = sizes.iter().sum();
    let expected_peak = expected_sum;
    assert_eq!(tracker.current_allocated_bytes(), expected_sum);
    assert_eq!(tracker.current_memory_usage(), expected);
    for i in [1usize, 2, 7] {
        expected_sum -= sizes[i];
        tracker.free_anon_mmap(i * 10000, sizes[i]);
        expected[i] -= sizes[i];
        assert_eq!(tracker.current_allocated_bytes(), expected_sum);
        assert_eq!(tracker.current_memory_usage(), expected);
    }
    assert_eq!(tracker.peak_allocated_bytes(), expected_peak);
    assert_eq!(tracker.current_anon_mmaps().size(), expected_sum);
}

#[test]
fn everything_freed_leaves_every_total_at_zero() {
    let func = FunctionLocation::from_strings("a", "af");
    let mut tracker = AllocationTracker::new(".".to_string());
    for address in 1..50usize {
        let mut cs = Callstack::new();
        cs.start_call(0, CallSiteId::new(FunctionId::new(&func), (address % 7) as u16));
        tracker.add_allocation(address, address * 31, &cs);
    }
    for address in (1..50usize).rev() {
        tracker.free_allocation(address);
    }
    assert_eq!(tracker.current_allocated_bytes(), 0);
    assert_eq!(tracker.current_memory_usage(), vec![0; 7]);
    assert_eq!(tracker.current_allocations().len(), 0);
    assert_eq!(tracker.to_lines(false, false), Vec::<String>::new());
}

#[test]
fn entry_points_record_under_the_line_of_the_allocation() {
    let func = FunctionLocation::from_strings("a", "af");
    let mut thread = Callstack::new();
    thread.start_call(0, CallSiteId::new(FunctionId::new(&func), 1));
    let mut tracker = AllocationTracker::new("/tmp".to_string());

    assert!(can_add_allocation(&tracker, &thread, 16, 100, 5, false));
    assert!(add_allocation(&mut tracker, &thread, 16, 100, 5, false).is_none());
    assert!(add_allocation(&mut tracker, &thread, 32, 50, 0, false).is_none());
    assert!(can_add_allocation(&tracker, &thread, 4096, 8192, 9, true));
    assert!(add_allocation(&mut tracker, &thread, 4096, 8192, 9, true).is_none());
    assert!(!can_add_allocation(&tracker, &thread, 8000, 8192, 9, true));
    assert!(can_add_allocation(&tracker, &thread, 1 << 20, usize::MAX - (1 << 20), 5, true));
    assert_eq!(get_allocation_size(&tracker, 16), 100);
    assert_eq!(get_allocation_size(&tracker, 17), 0);
    assert_eq!(
        tracker.to_lines(false, false),
        vec!["a:5 (af) 100", "a:1 (af) 50", "a:9 (af) 8192"]
    );
    // The thread's own stack keeps its line.
    assert_eq!(thread.as_string(false), "a:1 (af)");

    free_allocation(&mut tracker, 16);
    free_anon_mmap(&mut tracker, 4096, 4096);
    assert_eq!(tracker.current_memory_usage(), vec![0, 50, 4096]);
    assert_eq!(tracker.peak_allocated_bytes(), 8342);

    reset(&mut tracker, "/elsewhere".to_string());
    assert_eq!(tracker.current_allocated_bytes(), 0);
    assert_eq!(tracker.peak_allocated_bytes(), 0);
    assert_eq!(tracker.current_memory_usage(), vec![]);
    assert_eq!(tracker.interner().len(), 0);
    assert_eq!(tracker.current_anon_mmaps().len(), 0);
    let plan = add_allocation(&mut tracker, &thread, 0, 10, 1, false).unwrap();
    assert_eq!(plan.dump.directory, "/elsewhere");
}

#[test]
fn a_dump_of_the_peak_names_its_files() {
    let func = FunctionLocation::from_strings("a", "af");
    let mut cs = Callstack::new();
    cs.start_call(0, CallSiteId::new(FunctionId::new(&func), 1));
    let mut tracker = AllocationTracker::new("/tmp".to_string());
    tracker.add_allocation(1, 3 << 20, &cs);
    let dump = dump_peak_to_flamegraph(&mut tracker, "out/dir");
    assert_eq!(dump.directory, "out/dir");
    assert_eq!(dump.raw_file, "peak-memory.prof");
    assert_eq!(dump.svg_file, "peak-memory.svg");
    assert_eq!(dump.reversed_svg_file, "peak-memory-reversed.svg");
    assert_eq!(dump.title, "Peak Tracked Memory Usage");
    assert_eq!(dump.peak_bytes, 3 << 20);
    assert_eq!(dump.subtitle, Some("SUBTITLE-HERE".to_string()));
    assert_eq!(dump.lines, vec!["a:1 (af);TB@@a:1@@TB 3145728"]);

    let plain = tracker.dump_to_flamegraph("d", false, "now", "Live", false);
    assert_eq!(plain.raw_file, "now.prof");
    assert_eq!(plain.svg_file, "now.svg");
    assert_eq!(plain.reversed_svg_file, "now-reversed.svg");
    assert_eq!(plain.title, "Live");
    assert_eq!(plain.subtitle, None);
    assert_eq!(plain.lines, vec!["a:1 (af) 3145728"]);
}

#[test]
fn out_of_memory_gives_back_large_allocations_of_the_host_program() {
    let func = FunctionLocation::from_strings("a", "af");
    let mut cs = Callstack::new();
    cs.start_call(0, CallSiteId::new(FunctionId::new(&func), 1));
    let mut tracker = AllocationTracker::new("/var/tmp/fil".to_string());
    tracker.add_allocation(100, 300000, &cs);
    tracker.add_allocation(200, 300001, &cs);
    tracker.add_allocation(300, 5000000, &Callstack::new());
    tracker.add_allocation(400, 1 << 32, &cs);
    tracker.add_allocation(500, 12, &cs);
    tracker.add_anon_mmap(1 << 40, 1 << 30, &cs);

    let plan = add_allocation(&mut tracker, &cs, 0, 1 << 20, 3, false).unwrap();
    let mut release = plan.release.clone();
    release.sort();
    assert_eq!(release, vec![200, 400]);
    assert_eq!(plan.dump.directory, "/var/tmp/fil");
    assert_eq!(plan.dump.raw_file, "out-of-memory.prof");
    assert_eq!(plan.dump.svg_file, "out-of-memory.svg");
    assert_eq!(plan.dump.reversed_svg_file, "out-of-memory-reversed.svg");
    assert_eq!(plan.dump.title, "Current allocations at out-of-memory time");
    assert_eq!(plan.dump.subtitle, None);
    assert_eq!(
        plan.dump.lines,
        vec![
            format!("a:1 (af) {}", 300000usize + 300001 + (1 << 32) + 12 + (1 << 30)),
            "[No Python stack] 5000000".to_string()
        ]
    );
    // The failed allocation itself is not recorded.
    assert_eq!(tracker.current_allocations().len(), 5);
    assert_eq!(get_allocation_size(&tracker, 0), 0);
    assert_eq!(plan.dump.peak_bytes, tracker.current_allocated_bytes());
}

#[test]
fn totals_have_no_room_past_the_machine_word() {
    let mut tracker = AllocationTracker::new(".".to_string());
    let stack = Callstack::new();
    let big: usize = 1 << 50;
    for address in 1..16384usize {
        assert!(tracker.can_add_allocation(big, &stack));
        tracker.add_allocation(address, big, &stack);
    }
    assert_eq!(tracker.current_allocated_bytes(), usize::MAX - big + 1);
    assert!(!tracker.can_add_allocation(big, &stack));
    assert!(!can_add_allocation(&tracker, &stack, 16384, big, 0, false));
    assert!(tracker.can_add_allocation(big - (1 << 20), &stack));
    assert!(tracker.can_add_allocation(big - 1, &Callstack::new()) == false);
    assert!(tracker.can_add_allocation(0, &stack));
    assert!(!tracker.can_add_anon_mmap(1 << 60, big, &stack));
    assert!(tracker.can_add_anon_mmap(1 << 60, big - 1, &stack));
    tracker.add_anon_mmap(1 << 60, big - 1, &stack);
    assert_eq!(tracker.current_allocated_bytes(), usize::MAX);
    assert!(!tracker.can_add_allocation(1, &stack));
    assert!(tracker.can_add_allocation(0, &stack));
}

#[test]
fn an_address_recorded_twice_keeps_the_bytes_of_both_until_freed() {
    let mut tracker = AllocationTracker::new(".".to_string());
    let stack = Callstack::new();
    tracker.add_allocation(1, 100, &stack);
    tracker.add_allocation(1, 50, &stack);
    assert_eq!(tracker.current_allocations().len(), 1);
    assert_eq!(tracker.get_allocation_size(1), 50);
    assert_eq!(tracker.current_allocated_bytes(), 150);
    // What the table holds is what a report of the live bytes shows.
    assert_eq!(tracker.combine_callstacks(false), vec![(0, 50)]);
    tracker.free_allocation(1);
    assert_eq!(tracker.current_allocated_bytes(), 100);
    assert_eq!(tracker.current_memory_usage(), vec![100]);
    assert_eq!(tracker.combine_callstacks(false), vec![]);
}

#[test]
fn the_reserve_is_held_until_memory_runs_out() {
    let func = FunctionLocation::from_strings("a", "af");
    let mut cs = Callstack::new();
    cs.start_call(0, CallSiteId::new(FunctionId::new(&func), 1));
    let mut tracker = AllocationTracker::new("/tmp".to_string());
    assert!(tracker.holds_reserve());
    tracker.add_allocation(1, 1000, &cs);
    tracker.add_anon_mmap(4096, 4096, &cs);
    tracker.free_allocation(1);
    tracker.free_anon_mmap(4096, 100);
    tracker.to_lines(true, false);
    assert!(add_allocation(&mut tracker, &cs, 8, 10, 0, false).is_none());
    assert!(tracker.holds_reserve());

    assert!(add_allocation(&mut tracker, &cs, 0, 10, 0, false).is_some());
    assert!(!tracker.holds_reserve());
    // What is tracked stays as it was.
    assert_eq!(tracker.current_allocated_bytes(), 3996 + 10);
    tracker.free_allocation(8);
    assert!(!tracker.holds_reserve());
    tracker.oom_break_glass();
    assert!(!tracker.holds_reserve());

    reset(&mut tracker, "/tmp".to_string());
    assert!(tracker.holds_reserve());
    tracker.oom_break_glass();
    assert!(!tracker.holds_reserve());
    assert_eq!(tracker.current_allocated_bytes(), 0);
}
