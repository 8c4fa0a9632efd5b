use proctree::{CommandString, MemoryBytes, PageCounts};

#[test]
fn memory_bytes_counts_private_pages() {
    let p = PageCounts { resident: 10, shared: 4, page_size: 4096 };
    assert_eq!(p.memory_bytes(), 6 * 4096);
    let p = PageCounts { resident: 3, shared: 5, page_size: 4096 };
    assert_eq!(p.memory_bytes(), 0);
    let p = PageCounts { resident: u64::MAX, shared: 0, page_size: 2 };
    assert_eq!(p.memory_bytes(), u64::MAX);
}

#[test]
fn command_joins_arguments() {
    let args: Option<Vec<String>> = Some(vec!["sleep".to_string(), "10".to_string()]);
    assert_eq!(args.command(), "sleep 10");
    let empty: Option<Vec<String>> = Some(vec![]);
    assert_eq!(empty.command(), "");
    let unreadable: Option<Vec<String>> = None;
    assert_eq!(unreadable.command(), "unknown");
}
