//! The process table of a container: named columns, one row per process,
//! read into records by a fixed title-to-field lookup.
use vstd::prelude::*;
use crate::address::chars_equal;

verus! {

/// The process table as the engine reports it.
#[allow(non_snake_case)]
pub struct Top {
    pub Titles: Vec<String>,
    pub Processes: Vec<Vec<String>>,
}

/// One process, with the columns that the table may carry.
#[derive(Debug)]
pub struct Process {
    pub user: String,
    pub pid: String,
    pub cpu: Option<String>,
    pub memory: Option<String>,
    pub vsz: Option<String>,
    pub rss: Option<String>,
    pub tty: Option<String>,
    pub stat: Option<String>,
    pub start: Option<String>,
    pub time: Option<String>,
    pub command: String,
}

/// A process record as text.
pub struct ProcessModel {
    pub user: Seq<char>,
    pub pid: Seq<char>,
    pub cpu: Option<Seq<char>>,
    pub memory: Option<Seq<char>>,
    pub vsz: Option<Seq<char>>,
    pub rss: Option<Seq<char>>,
    pub tty: Option<Seq<char>>,
    pub stat: Option<Seq<char>>,
    pub start: Option<Seq<char>>,
    pub time: Option<Seq<char>>,
    pub command: Seq<char>,
}

pub open spec fn opt_text(o: Option<String>) -> Option<Seq<char>> {
    match o {
        Some(s) => Some(s@),
        None => None,
    }
}

pub open spec fn or_empty(o: Option<Seq<char>>) -> Seq<char> {
    match o {
        Some(s) => s,
        None => Seq::empty(),
    }
}

impl View for Process {
    type V = ProcessModel;

    open spec fn view(&self) -> ProcessModel {
        ProcessModel {
            user: self.user@,
            pid: self.pid@,
            cpu: opt_text(self.cpu),
            memory: opt_text(self.memory),
            vsz: opt_text(self.vsz),
            rss: opt_text(self.rss),
            tty: opt_text(self.tty),
            stat: opt_text(self.stat),
            start: opt_text(self.start),
            time: opt_text(self.time),
            command: self.command@,
        }
    }
}

pub open spec fn texts(v: Seq<String>) -> Seq<Seq<char>> {
    v.map_values(|s: String| s@)
}

/// The value in the last of the first `n` columns titled `key`.
pub open spec fn column(titles: Seq<Seq<char>>, row: Seq<Seq<char>>, key: Seq<char>, n: int) -> Option<
    Seq<char>,
>
    decreases n,
{
    if n <= 0 || n > titles.len() || n > row.len() {
        None
    } else if titles[n - 1] == key {
        Some(row[n - 1])
    } else {
        column(titles, row, key, n - 1)
    }
}

pub open spec fn width(titles: Seq<Seq<char>>, row: Seq<Seq<char>>) -> int {
    if titles.len() < row.len() {
        titles.len() as int
    } else {
        row.len() as int
    }
}

/// The record that a row reads as: each field takes the value under its
/// title, the text fields are empty and the others absent without one.
pub open spec fn process_of(titles: Seq<Seq<char>>, row: Seq<Seq<char>>) -> ProcessModel {
    let n = width(titles, row);
    ProcessModel {
        user: or_empty(column(titles, row, "USER"@, n)),
        pid: or_empty(column(titles, row, "PID"@, n)),
        cpu: column(titles, row, "%CPU"@, n),
        memory: column(titles, row, "%MEM"@, n),
        vsz: column(titles, row, "VSZ"@, n),
        rss: column(titles, row, "RSS"@, n),
        tty: column(titles, row, "TTY"@, n),
        stat: column(titles, row, "STAT"@, n),
        start: column(titles, row, "START"@, n),
        time: column(titles, row, "TIME"@, n),
        command: or_empty(column(titles, row, "COMMAND"@, n)),
    }
}

fn text_is(s: &String, word: &str) -> (r: bool)
    ensures
        r == (s@ == word@),
{
    let t = s.as_str();
    let n = t.unicode_len();
    proof {
        assert(t@.subrange(0, n as int) =~= t@);
    }
    chars_equal(t, 0, n, word)
}

/// Reads one row of the table under `titles`.
pub fn process_from_row(titles: &Vec<String>, row: &Vec<String>) -> (r: Process)
    ensures
        r@ == process_of(texts(titles@), texts(row@)),
{
    let ghost ts = texts(titles@);
    let ghost rs = texts(row@);
    let mut p = Process {
        user: String::new(),
        pid: String::new(),
        cpu: None,
        memory: None,
        vsz: None,
        rss: None,
        tty: None,
        stat: None,
        start: None,
        time: None,
        command: String::new(),
    };
    let n = if titles.len() < row.len() {
        titles.len()
    } else {
        row.len()
    };
    let mut j: usize = 0;
    while j < n
        invariant
            ts == texts(titles@),
            rs == texts(row@),
            n == width(ts, rs),
            j <= n,
            p.user@ == or_empty(column(ts, rs, "USER"@, j as int)),
            p.pid@ == or_empty(column(ts, rs, "PID"@, j as int)),
            opt_text(p.cpu) == column(ts, rs, "%CPU"@, j as int),
            opt_text(p.memory) == column(ts, rs, "%MEM"@, j as int),
            opt_text(p.vsz) == column(ts, rs, "VSZ"@, j as int),
            opt_text(p.rss) == column(ts, rs, "RSS"@, j as int),
            opt_text(p.tty) == column(ts, rs, "TTY"@, j as int),
            opt_text(p.stat) == column(ts, rs, "STAT"@, j as int),
            opt_text(p.start) == column(ts, rs, "START"@, j as int),
            opt_text(p.time) == column(ts, rs, "TIME"@, j as int),
            p.command@ == or_empty(column(ts, rs, "COMMAND"@, j as int)),
        decreases n - j,
    {
        let key = &titles[j];
        let value = &row[j];
        proof {
            assert(ts[j as int] == key@);
            assert(rs[j as int] == value@);
        }
        if text_is(key, "USER") {
            p.user = value.clone();
        }
        if text_is(key, "PID") {
            p.pid = value.clone();
        }
        if text_is(key, "%CPU") {
            p.cpu = Some(value.clone());
        }
        if text_is(key, "%MEM") {
            p.memory = Some(value.clone());
        }
        if text_is(key, "VSZ") {
            p.vsz = Some(value.clone());
        }
        if text_is(key, "RSS") {
            p.rss = Some(value.clone());
        }
        if text_is(key, "TTY") {
            p.tty = Some(value.clone());
        }
        if text_is(key, "STAT") {
            p.stat = Some(value.clone());
        }
        if text_is(key, "START") {
            p.start = Some(value.clone());
        }
        if text_is(key, "TIME") {
            p.time = Some(value.clone());
        }
        if text_is(key, "COMMAND") {
            p.command = value.clone();
        }
        j = j + 1;
    }
    p
}

/// Reads every row of the table, in order.
pub fn processes_from_top(top: &Top) -> (r: Vec<Process>)
    ensures
        r@.len() == top.Processes@.len(),
        forall|i: int|
            0 <= i < r@.len() ==> #[trigger] r@[i]@ == process_of(
                texts(top.Titles@),
                texts(top.Processes@[i]@),
            ),
{
    let mut out: Vec<Process> = Vec::new();
    let mut i: usize = 0;
    while i < top.Processes.len()
        invariant
            i <= top.Processes@.len(),
            out@.len() == i,
            forall|k: int|
                0 <= k < i ==> #[trigger] out@[k]@ == process_of(
                    texts(top.Titles@),
                    texts(top.Processes@[k]@),
                ),
        decreases top.Processes@.len() - i,
    {
        let p = process_from_row(&top.Titles, &top.Processes[i]);
        out.push(p);
        i = i + 1;
    }
    out
}

} // verus!
