use docker_transport::process::{process_from_row, processes_from_top, Top};

fn strings(v: &[&str]) -> Vec<String> {
    v.iter().map(|s| s.to_string()).collect()
}

#[test]
fn rows_read_by_title() {
    let top = Top {
        Titles: strings(&["UID", "PID", "PPID", "C", "STIME", "TTY", "TIME", "CMD"]),
        Processes: vec![
            strings(&["root", "13642", "882", "0", "17:03", "pts/0", "00:00:00", "/bin/bash"]),
            strings(&["root", "13735", "13642", "0", "17:06", "pts/0", "00:00:00", "sleep 10"]),
        ],
    };
    let ps = processes_from_top(&top);
    assert_eq!(ps.len(), 2);
    assert_eq!(ps[0].pid, "13642");
    assert_eq!(ps[0].tty, Some("pts/0".to_string()));
    assert_eq!(ps[0].time, Some("00:00:00".to_string()));
    assert_eq!(ps[0].user, "");
    assert_eq!(ps[0].command, "");
    assert_eq!(ps[0].cpu, None);
    assert_eq!(ps[1].pid, "13735");
}

#[test]
fn row_with_every_column() {
    let titles = strings(&[
        "USER", "PID", "%CPU", "%MEM", "VSZ", "RSS", "TTY", "STAT", "START", "TIME", "COMMAND",
    ]);
    let row = strings(&["root", "1", "0.1", "0.2", "100", "50", "?", "Ss", "10:00", "0:01", "init"]);
    let p = process_from_row(&titles, &row);
    assert_eq!(p.user, "root");
    assert_eq!(p.pid, "1");
    assert_eq!(p.cpu, Some("0.1".to_string()));
    assert_eq!(p.memory, Some("0.2".to_string()));
    assert_eq!(p.vsz, Some("100".to_string()));
    assert_eq!(p.rss, Some("50".to_string()));
    assert_eq!(p.tty, Some("?".to_string()));
    assert_eq!(p.stat, Some("Ss".to_string()));
    assert_eq!(p.start, Some("10:00".to_string()));
    assert_eq!(p.time, Some("0:01".to_string()));
    assert_eq!(p.command, "init");
}

#[test]
fn short_row_leaves_fields_empty() {
    let titles = strings(&["USER", "PID", "COMMAND"]);
    let row = strings(&["me"]);
    let p = process_from_row(&titles, &row);
    assert_eq!(p.user, "me");
    assert_eq!(p.pid, "");
    assert_eq!(p.command, "");
}
