use byo_tools::order::{compare, compare_lowercase};
use byo_tools::procs::{filter_processes, lowercase_contains, sort_process_list, ProcRow, SortKey};
use byo_tools::sort::{resolve_anchor, sort_impl};
use std::cmp::Ordering;

/// An integer that orders CPU usages as the floats do, equal for equal usage.
fn cpu_rank(cpu: f32) -> i32 {
    if cpu == 0.0 || cpu.is_nan() {
        0
    } else {
        let bits = cpu.to_bits() as i32;
        if bits >= 0 {
            bits
        } else {
            bits ^ 0x7fff_ffff
        }
    }
}

fn row(pid: u32, name: &str, cpu: f32, mem_mb: u64) -> ProcRow {
    ProcRow::new(pid, name, cpu_rank(cpu), mem_mb)
}

#[test]
fn test_proc_row_new() {
    let r = row(1234, "test", 50.0, 1024);
    assert_eq!(r.pid, 1234);
    assert_eq!(r.name, "test");
    assert_eq!(r.cpu_rank, cpu_rank(50.0));
    assert_eq!(r.mem_mb, 1024);
}

#[test]
fn test_sort_key_cycle() {
    assert_eq!(SortKey::Cpu.next(), SortKey::Mem);
    assert_eq!(SortKey::Mem.next(), SortKey::Pid);
    assert_eq!(SortKey::Pid.next(), SortKey::Name);
    assert_eq!(SortKey::Name.next(), SortKey::Cpu);
}

#[test]
fn test_sort_key_labels() {
    assert_eq!(SortKey::Cpu.label(), "CPU");
    assert_eq!(SortKey::Mem.label(), "MEM");
    assert_eq!(SortKey::Pid.label(), "PID");
    assert_eq!(SortKey::Name.label(), "NAME");
}

#[test]
fn sort_key_default_is_cpu() {
    assert_eq!(SortKey::default(), SortKey::Cpu);
}

#[test]
fn sort_key_cycle_returns_after_four() {
    for k in [SortKey::Cpu, SortKey::Mem, SortKey::Pid, SortKey::Name] {
        assert_eq!(k.next().next().next().next(), k);
        assert_ne!(k.next(), k);
    }
}

#[test]
fn lib_test_sort_by_cpu_descending() {
    let mut procs = vec![row(1, "a", 1.0, 100), row(2, "b", 5.0, 200), row(3, "c", 3.0, 300)];
    let selected = sort_process_list(&mut procs, SortKey::Cpu, true, None, 0);
    assert_eq!(procs[0].pid, 2);
    assert_eq!(procs[1].pid, 3);
    assert_eq!(procs[2].pid, 1);
    assert_eq!(selected, 0);
}

#[test]
fn lib_test_sort_by_cpu_ascending() {
    let mut procs = vec![row(1, "a", 5.0, 100), row(2, "b", 1.0, 200), row(3, "c", 3.0, 300)];
    let selected = sort_process_list(&mut procs, SortKey::Cpu, false, None, 0);
    assert_eq!(procs[0].pid, 2);
    assert_eq!(procs[1].pid, 3);
    assert_eq!(procs[2].pid, 1);
    assert_eq!(selected, 0);
}

#[test]
fn lib_test_sort_preserves_anchor() {
    let mut procs = vec![row(1, "a", 1.0, 100), row(2, "b", 5.0, 200)];
    let selected = sort_process_list(&mut procs, SortKey::Cpu, true, Some(1), 0);
    assert_eq!(selected, 1);
    assert_eq!(procs[selected].pid, 1);
}

#[test]
fn lib_test_sort_anchor_missing_uses_fallback() {
    let mut procs = vec![row(1, "a", 1.0, 100), row(2, "b", 5.0, 200)];
    let selected = sort_process_list(&mut procs, SortKey::Cpu, true, Some(999), 1);
    assert_eq!(selected, 1);
}

#[test]
fn test_filter_processes_case_insensitive() {
    let procs = vec![row(1, "bash", 1.0, 100), row(2, "Python", 2.0, 200), row(3, "nginx", 3.0, 300)];
    let filtered = filter_processes(&procs, "py");
    assert_eq!(filtered.len(), 1);
    assert_eq!(filtered[0].pid, 2);
}

#[test]
fn test_filter_processes_empty_query() {
    let procs = vec![row(1, "bash", 1.0, 100), row(2, "python", 2.0, 200)];
    let filtered = filter_processes(&procs, "");
    assert_eq!(filtered.len(), 2);
}

#[test]
fn test_filter_processes_no_match() {
    let procs = vec![row(1, "bash", 1.0, 100), row(2, "python", 2.0, 200)];
    let filtered = filter_processes(&procs, "xyz");
    assert!(filtered.is_empty());
}

#[test]
fn filter_query_case_folded_too() {
    let procs = vec![row(1, "bash", 1.0, 100), row(2, "python3", 2.0, 200), row(3, "PYTHON", 0.0, 5)];
    let filtered = filter_processes(&procs, "PyTh");
    assert_eq!(filtered.len(), 2);
    assert_eq!(filtered[0].pid, 2);
    assert_eq!(filtered[1].pid, 3);
    assert_eq!(filtered[1].name, "PYTHON");
}

#[test]
fn test_sort_empty_list() {
    let mut procs: Vec<ProcRow> = vec![];
    let selected = sort_process_list(&mut procs, SortKey::Cpu, true, None, 0);
    assert_eq!(selected, 0);
}

#[test]
fn test_sort_single_element() {
    let mut procs = vec![row(1, "a", 1.0, 100)];
    let selected = sort_process_list(&mut procs, SortKey::Cpu, true, None, 0);
    assert_eq!(selected, 0);
    assert_eq!(procs[0].pid, 1);
}

#[test]
fn sort_test_sort_by_cpu_descending() {
    let mut procs = vec![row(1, "a", 1.0, 100), row(2, "b", 5.0, 200), row(3, "c", 3.0, 300)];
    let selected = sort_impl(&mut procs, SortKey::Cpu, true, None, 0);
    assert_eq!(procs[0].pid, 2);
    assert_eq!(procs[1].pid, 3);
    assert_eq!(procs[2].pid, 1);
    assert_eq!(selected, 0);
}

#[test]
fn sort_test_sort_by_cpu_ascending() {
    let mut procs = vec![row(1, "a", 5.0, 100), row(2, "b", 1.0, 200), row(3, "c", 3.0, 300)];
    let selected = sort_impl(&mut procs, SortKey::Cpu, false, None, 0);
    assert_eq!(procs[0].pid, 2);
    assert_eq!(procs[1].pid, 3);
    assert_eq!(procs[2].pid, 1);
    assert_eq!(selected, 0);
}

#[test]
fn test_sort_by_mem() {
    let mut procs = vec![row(1, "a", 1.0, 300), row(2, "b", 5.0, 100)];
    sort_impl(&mut procs, SortKey::Mem, true, None, 0);
    assert_eq!(procs[0].pid, 1);
    assert_eq!(procs[1].pid, 2);
}

#[test]
fn test_sort_by_pid() {
    let mut procs = vec![row(3, "c", 1.0, 100), row(1, "a", 1.0, 100), row(2, "b", 1.0, 100)];
    sort_impl(&mut procs, SortKey::Pid, false, None, 0);
    assert_eq!(procs[0].pid, 1);
    assert_eq!(procs[1].pid, 2);
    assert_eq!(procs[2].pid, 3);
}

#[test]
fn test_sort_by_name() {
    let mut procs = vec![row(1, "charlie", 1.0, 100), row(2, "alice", 1.0, 100), row(3, "bob", 1.0, 100)];
    sort_impl(&mut procs, SortKey::Name, false, None, 0);
    assert_eq!(procs[0].name, "alice");
    assert_eq!(procs[1].name, "bob");
    assert_eq!(procs[2].name, "charlie");
}

#[test]
fn sort_test_sort_preserves_anchor() {
    let mut procs = vec![row(1, "a", 1.0, 100), row(2, "b", 5.0, 200)];
    let selected = sort_impl(&mut procs, SortKey::Cpu, true, Some(1), 0);
    assert_eq!(selected, 1);
    assert_eq!(procs[selected].pid, 1);
}

#[test]
fn sort_test_sort_anchor_missing_uses_fallback() {
    let mut procs = vec![row(1, "a", 1.0, 100), row(2, "b", 5.0, 200)];
    let selected = sort_impl(&mut procs, SortKey::Cpu, true, Some(999), 1);
    assert_eq!(selected, 1);
}

#[test]
fn test_resolve_anchor_empty_list() {
    let procs: Vec<ProcRow> = vec![];
    assert_eq!(resolve_anchor(&procs, Some(1), 5), 0);
}

#[test]
fn resolve_anchor_clamps_fallback() {
    let procs = vec![row(1, "a", 1.0, 100), row(2, "b", 5.0, 200)];
    assert_eq!(resolve_anchor(&procs, None, 7), 1);
    assert_eq!(resolve_anchor(&procs, Some(2), 0), 1);
}

#[test]
fn test_compare_cpu_with_tiebreakers() {
    let a = row(1, "a", 5.0, 200);
    let b = row(2, "b", 5.0, 100);
    assert_eq!(compare(&a, &b, SortKey::Cpu), Ordering::Greater);

    let a = row(1, "a", 5.0, 100);
    let b = row(2, "b", 5.0, 100);
    assert_eq!(compare(&a, &b, SortKey::Cpu), Ordering::Less);
}

#[test]
fn compare_name_ignores_case_then_cpu() {
    let a = row(1, "Zed", 1.0, 1);
    let b = row(2, "alpha", 9.0, 1);
    assert_eq!(compare(&a, &b, SortKey::Name), Ordering::Greater);
    let a = row(1, "Bash", 2.0, 1);
    let b = row(2, "bash", 1.0, 1);
    assert_eq!(compare(&a, &b, SortKey::Name), Ordering::Greater);
    assert_eq!(compare(&a, &a, SortKey::Name), Ordering::Equal);
}

#[test]
fn sort_is_stable_ascending_and_reversed_descending() {
    // The first two rows tie under Name: same lowercase name, CPU and PID.
    let make = || vec![row(7, "x", 1.0, 10), row(7, "X", 1.0, 20), row(3, "a", 2.0, 5)];
    let mut asc = make();
    sort_impl(&mut asc, SortKey::Name, false, None, 0);
    assert_eq!(asc[0].name, "a");
    assert_eq!(asc[1].mem_mb, 10);
    assert_eq!(asc[2].mem_mb, 20);
    let mut desc = make();
    sort_impl(&mut desc, SortKey::Name, true, None, 0);
    assert_eq!(desc[0].mem_mb, 20);
    assert_eq!(desc[1].mem_mb, 10);
    assert_eq!(desc[2].name, "a");
}

#[test]
fn sort_handles_negative_and_zero_cpu() {
    let mut procs = vec![row(1, "a", 0.0, 1), row(2, "b", -1.5, 1), row(3, "c", -0.0, 1), row(4, "d", 0.25, 1)];
    sort_impl(&mut procs, SortKey::Cpu, false, None, 0);
    let pids: Vec<u32> = procs.iter().map(|p| p.pid).collect();
    assert_eq!(pids, vec![2, 1, 3, 4]);
}

#[test]
fn lowercase_text_helpers() {
    assert!(lowercase_contains("python3", "th"));
    assert!(lowercase_contains("python3", ""));
    assert!(!lowercase_contains("python3", "TH"));
    assert!(!lowercase_contains("py", "python"));
    assert_eq!(compare_lowercase("alice", "bob"), -1);
    assert_eq!(compare_lowercase("bob", "bo"), 1);
    assert_eq!(compare_lowercase("é", "é"), 0);
    assert_eq!(compare_lowercase("z", "é"), -1);
}

#[test]
fn proc_rows_compare_by_all_fields() {
    let a = row(7, "init", 1.5, 20);
    assert_eq!(a, a.clone());
    assert_eq!(a, row(7, "init", 1.5, 20));
    assert_ne!(a, row(8, "init", 1.5, 20));
    assert_ne!(a, row(7, "Init", 1.5, 20));
    assert_ne!(a, row(7, "init", 2.5, 20));
    assert_ne!(a, row(7, "init", 1.5, 21));
    assert!(format!("{:?}", a).contains("init"));
}
