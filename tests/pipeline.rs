use proctree::{
    get_sorted_process_list, human_readable_byte, parse_search_query, Column, MyProcState,
    MyProcess, SortMyProcesses, SortOrder, StartTime, VecTake,
};

fn process(id: i32, parent_id: i32, name: &str) -> MyProcess {
    MyProcess {
        name: name.to_string(),
        id,
        parent_id,
        cpu_hundredths: 0,
        memory_bytes: 0,
        state: MyProcState::Sleeping,
        start_time: None,
        user: "root".to_string(),
        command: format!("/usr/bin/{name}"),
        files_using: vec![],
    }
}

fn summary(rows: &[(MyProcess, usize)]) -> Vec<(i32, usize)> {
    rows.iter().map(|(p, d)| (p.id, *d)).collect()
}

#[test]
fn test_human_readable_byte() {
    assert_eq!(human_readable_byte(500), "500 B");
    assert_eq!(human_readable_byte(1024), "1.00 KB");
    assert_eq!(human_readable_byte(2048), "2.00 KB");
    assert_eq!(human_readable_byte(1048576), "1.00 MB");
    assert_eq!(human_readable_byte(1073741824), "1.00 GB");
    assert_eq!(human_readable_byte(1099511627776), "1.00 TB");
    assert_eq!(human_readable_byte(1152921504606846976), "1.00 EB");
}

#[test]
fn human_readable_byte_edges() {
    assert_eq!(human_readable_byte(0), "0 B");
    assert_eq!(human_readable_byte(1023), "1023 B");
    assert_eq!(human_readable_byte(1536), "1.50 KB");
    assert_eq!(human_readable_byte(1048575), "1024.00 KB");
    assert_eq!(human_readable_byte(1152), "1.12 KB");
    assert_eq!(human_readable_byte(1166), "1.14 KB");
}

#[test]
fn test_parse_search_query() {
    let query = "   @name  foo, @command, @command bar, @pid 123";
    let searches = parse_search_query(query);
    println!("{:?}", searches);
    assert_eq!(searches.len(), 3);
    assert_eq!(searches[0].column, "name");
    assert_eq!(searches[0].value, "foo");
    assert_eq!(searches[1].column, "command");
    assert_eq!(searches[1].value, "bar");
    assert_eq!(searches[2].column, "pid");
    assert_eq!(searches[2].value, "123");
}

#[test]
fn parse_search_query_edges() {
    assert!(parse_search_query("").is_empty());
    assert!(parse_search_query("   ,  , foo").is_empty());
    let s = parse_search_query("@@user\t  alice  ");
    assert_eq!(s.len(), 1);
    assert_eq!(s[0].column, "user");
    assert_eq!(s[0].value, "alice");
    let s = parse_search_query("@ x");
    assert_eq!(s.len(), 1);
    assert_eq!(s[0].column, "");
    assert_eq!(s[0].value, "x");
    let s = parse_search_query("state running now");
    assert_eq!(s[0].column, "state");
    assert_eq!(s[0].value, "running now");
}

fn three_levels() -> Vec<MyProcess> {
    vec![process(3, 2, "gamma"), process(1, 0, "alpha"), process(2, 1, "beta")]
}

#[test]
fn search_keeps_ancestors_of_a_deep_match() {
    let rows = get_sorted_process_list(three_levels(), &Column::Name, &SortOrder::Ascending, "@name gamma");
    assert_eq!(summary(&rows), vec![(1, 0), (2, 1), (3, 2)]);
    assert_eq!(rows[2].0.name, "gamma");
}

#[test]
fn empty_search_shows_every_reachable_process() {
    let mut procs = three_levels();
    procs.push(process(4, 1, "delta"));
    procs.push(process(5, 99, "orphan"));
    let rows = get_sorted_process_list(procs, &Column::Name, &SortOrder::Ascending, "");
    assert_eq!(summary(&rows), vec![(1, 0), (2, 1), (3, 2), (4, 1)]);
}

#[test]
fn siblings_follow_the_sort_order() {
    let procs = vec![
        process(1, 0, "init"),
        process(10, 1, "Zeta"),
        process(11, 1, "alpha"),
        process(12, 1, "Mid"),
        process(13, 12, "leaf"),
    ];
    let rows = get_sorted_process_list(procs.clone(), &Column::Name, &SortOrder::Ascending, "");
    assert_eq!(summary(&rows), vec![(1, 0), (11, 1), (12, 1), (13, 2), (10, 1)]);
    let rows = get_sorted_process_list(procs, &Column::Name, &SortOrder::Descending, "");
    assert_eq!(summary(&rows), vec![(1, 0), (10, 1), (12, 1), (13, 2), (11, 1)]);
}

#[test]
fn predicates_combine_as_and() {
    let mut procs = three_levels();
    procs.push(process(4, 1, "gamma-two"));
    let rows = get_sorted_process_list(procs.clone(), &Column::ID, &SortOrder::Ascending, "@name gamma");
    assert_eq!(summary(&rows), vec![(1, 0), (2, 1), (3, 2), (4, 1)]);
    let rows = get_sorted_process_list(procs, &Column::ID, &SortOrder::Ascending, "@name gamma, @id 4");
    assert_eq!(summary(&rows), vec![(1, 0), (4, 1)]);
}

#[test]
fn matching_is_case_insensitive_and_two_way() {
    let procs = three_levels();
    let rows = get_sorted_process_list(procs.clone(), &Column::ID, &SortOrder::Ascending, "@NAME BETA");
    assert_eq!(summary(&rows), vec![(1, 0), (2, 1)]);
    let rows = get_sorted_process_list(procs.clone(), &Column::ID, &SortOrder::Ascending, "@id 31");
    assert_eq!(summary(&rows), vec![(1, 0), (2, 1), (3, 2)]);
    let rows = get_sorted_process_list(procs, &Column::ID, &SortOrder::Ascending, "@bogus alpha");
    assert_eq!(summary(&rows), vec![(1, 0)]);
}

#[test]
fn file_state_and_start_time_columns() {
    let mut procs = three_levels();
    procs[0].files_using = vec!["/tmp/Report.TXT".to_string()];
    procs[2].state = MyProcState::Zombie;
    procs[1].start_time = Some(StartTime {
        seconds: 1_700_000_000,
        nanos: 0,
        year: 2023,
        month: 11,
        day: 4,
        hour: 9,
        minute: 5,
        second: 7,
    });
    let rows = get_sorted_process_list(procs.clone(), &Column::ID, &SortOrder::Ascending, "@file report.txt");
    assert_eq!(summary(&rows), vec![(1, 0), (2, 1), (3, 2)]);
    let rows = get_sorted_process_list(procs.clone(), &Column::ID, &SortOrder::Ascending, "@state zombie");
    assert_eq!(summary(&rows), vec![(1, 0), (2, 1)]);
    let rows = get_sorted_process_list(procs.clone(), &Column::ID, &SortOrder::Ascending, "@starttime 2023-11-04 09:05:07");
    assert_eq!(summary(&rows), vec![(1, 0)]);
    let rows = get_sorted_process_list(procs, &Column::ID, &SortOrder::Ascending, "@starttime n/a");
    assert_eq!(summary(&rows), vec![(1, 0), (2, 1), (3, 2)]);
}

#[test]
fn cpu_and_memory_render_for_search() {
    let mut procs = three_levels();
    procs[0].cpu_hundredths = 1205;
    procs[2].memory_bytes = 4096;
    let rows = get_sorted_process_list(procs.clone(), &Column::ID, &SortOrder::Ascending, "@cpu 12.05");
    assert_eq!(summary(&rows), vec![(1, 0), (2, 1), (3, 2)]);
    // "4096" contains the "0" of the records with no memory.
    let rows = get_sorted_process_list(procs.clone(), &Column::ID, &SortOrder::Ascending, "@memory 4096");
    assert_eq!(summary(&rows), vec![(1, 0), (2, 1), (3, 2)]);
    procs[0].memory_bytes = 1;
    procs[1].memory_bytes = 7;
    let rows = get_sorted_process_list(procs, &Column::ID, &SortOrder::Ascending, "@memory 4096");
    assert_eq!(summary(&rows), vec![(1, 0), (2, 1)]);
}

#[test]
fn descending_is_reverse_of_ascending_with_ties() {
    let mut a = process(1, 0, "a");
    let mut b = process(2, 0, "b");
    let mut c = process(3, 0, "c");
    let mut d = process(4, 0, "d");
    a.cpu_hundredths = 50;
    b.cpu_hundredths = 10;
    c.cpu_hundredths = 50;
    d.cpu_hundredths = 10;
    let all = vec![a, b, c, d];
    let mut asc: Vec<&MyProcess> = all.iter().collect();
    SortMyProcesses::sort(&mut asc, &Column::CPU, &SortOrder::Ascending);
    let mut desc: Vec<&MyProcess> = all.iter().collect();
    SortMyProcesses::sort(&mut desc, &Column::CPU, &SortOrder::Descending);
    let asc_ids: Vec<i32> = asc.iter().map(|p| p.id).collect();
    let mut desc_ids: Vec<i32> = desc.iter().map(|p| p.id).collect();
    assert_eq!(asc_ids, vec![2, 4, 1, 3]);
    desc_ids.reverse();
    assert_eq!(desc_ids, asc_ids);
}

#[test]
fn missing_start_time_sorts_first() {
    let mut a = process(1, 0, "a");
    let b = process(2, 0, "b");
    a.start_time = Some(StartTime {
        seconds: 10,
        nanos: 5,
        year: 1970,
        month: 1,
        day: 1,
        hour: 0,
        minute: 0,
        second: 10,
    });
    let rows = get_sorted_process_list(vec![a, b], &Column::StartTime, &SortOrder::Ascending, "");
    assert_eq!(summary(&rows), vec![(2, 0), (1, 0)]);
}

#[test]
fn state_sorts_in_declaration_order() {
    let mut a = process(1, 0, "a");
    let mut b = process(2, 0, "b");
    a.state = MyProcState::Idle;
    b.state = MyProcState::Running;
    let rows = get_sorted_process_list(vec![a, b], &Column::State, &SortOrder::Ascending, "");
    assert_eq!(summary(&rows), vec![(2, 0), (1, 0)]);
    assert_eq!(MyProcState::Wakekill.name(), "Wakekill");
}

#[test]
fn vec_take_moves_one_element() {
    let mut v = vec![10, 20, 30];
    assert_eq!(v.take(1), Some(20));
    assert_eq!(v, vec![10, 30]);
    assert_eq!(v.take(5), None);
    assert_eq!(v, vec![10, 30]);
}
