use vstd::prelude::*;

use crate::text::{decimal, push_decimal, push_signed_decimal, push_two_digits, two_digits};

verus! {

/// Process identifier as the operating system hands it out.
pub type MyProcessID = i32;

/// Scheduling state of a process, ordered for sorting as declared.
#[derive(Debug, Clone, Copy, PartialEq, Eq, PartialOrd, Ord)]
pub enum MyProcState {
    Running,
    Sleeping,
    Waiting,
    Zombie,
    Stopped,
    Tracing,
    Dead,
    Wakekill,
    Waking,
    Parked,
    Idle,
    Unknown,
}

/// Direction of a sort.
#[derive(Debug, Clone, Copy, PartialEq, Eq, Default)]
pub enum SortOrder {
    #[default]
    Ascending,
    Descending,
}

/// The columns of the process table, in display order.
#[derive(Debug, Clone, Copy, PartialEq, Eq, Default)]
pub enum Column {
    #[default]
    Name,
    ID,
    CPU,
    Memory,
    ParentID,
    State,
    StartTime,
    User,
    Command,
}

impl MyProcState {
    /// Position of the state in declaration order.
    pub open spec fn rank(self) -> nat {
        match self {
            MyProcState::Running => 0,
            MyProcState::Sleeping => 1,
            MyProcState::Waiting => 2,
            MyProcState::Zombie => 3,
            MyProcState::Stopped => 4,
            MyProcState::Tracing => 5,
            MyProcState::Dead => 6,
            MyProcState::Wakekill => 7,
            MyProcState::Waking => 8,
            MyProcState::Parked => 9,
            MyProcState::Idle => 10,
            MyProcState::Unknown => 11,
        }
    }

    /// Symbolic name of the state.
    pub open spec fn spec_name(self) -> Seq<char> {
        match self {
            MyProcState::Running => "Running"@,
            MyProcState::Sleeping => "Sleeping"@,
            MyProcState::Waiting => "Waiting"@,
            MyProcState::Zombie => "Zombie"@,
            MyProcState::Stopped => "Stopped"@,
            MyProcState::Tracing => "Tracing"@,
            MyProcState::Dead => "Dead"@,
            MyProcState::Wakekill => "Wakekill"@,
            MyProcState::Waking => "Waking"@,
            MyProcState::Parked => "Parked"@,
            MyProcState::Idle => "Idle"@,
            MyProcState::Unknown => "Unknown"@,
        }
    }

    pub fn rank_of(&self) -> (r: u8)
        ensures
            r as nat == self.rank(),
    {
        match self {
            MyProcState::Running => 0,
            MyProcState::Sleeping => 1,
            MyProcState::Waiting => 2,
            MyProcState::Zombie => 3,
            MyProcState::Stopped => 4,
            MyProcState::Tracing => 5,
            MyProcState::Dead => 6,
            MyProcState::Wakekill => 7,
            MyProcState::Waking => 8,
            MyProcState::Parked => 9,
            MyProcState::Idle => 10,
            MyProcState::Unknown => 11,
        }
    }

    /// The symbolic name, e.g. `"Sleeping"`.
    pub fn name(&self) -> (r: &'static str)
        ensures
            r@ == self.spec_name(),
    {
        match self {
            MyProcState::Running => "Running",
            MyProcState::Sleeping => "Sleeping",
            MyProcState::Waiting => "Waiting",
            MyProcState::Zombie => "Zombie",
            MyProcState::Stopped => "Stopped",
            MyProcState::Tracing => "Tracing",
            MyProcState::Dead => "Dead",
            MyProcState::Wakekill => "Wakekill",
            MyProcState::Waking => "Waking",
            MyProcState::Parked => "Parked",
            MyProcState::Idle => "Idle",
            MyProcState::Unknown => "Unknown",
        }
    }
}

/// When a process started: the instant, for ordering, and the local
/// calendar date and time of that instant, for display.
#[derive(Debug, Clone, Copy, PartialEq, Eq)]
pub struct StartTime {
    pub seconds: i64,
    pub nanos: u32,
    pub year: i32,
    pub month: u32,
    pub day: u32,
    pub hour: u32,
    pub minute: u32,
    pub second: u32,
}

impl StartTime {
    pub open spec fn wf(self) -> bool {
        &&& 0 <= self.year <= 9999
        &&& 1 <= self.month <= 12
        &&& 1 <= self.day <= 31
        &&& self.hour < 24
        &&& self.minute < 60
        &&& self.second <= 60
        &&& self.nanos < 1_000_000_000
    }

    /// The instant in nanoseconds since the Unix epoch.
    pub open spec fn instant(self) -> int {
        self.seconds * 1_000_000_000 + self.nanos
    }

    /// `YYYY-MM-DD HH:MM:SS`.
    pub open spec fn spec_text(self) -> Seq<char> {
        two_digits((self.year / 100) as nat) + two_digits((self.year % 100) as nat) + seq!['-']
            + two_digits(self.month as nat) + seq!['-'] + two_digits(self.day as nat) + seq![' ']
            + two_digits(self.hour as nat) + seq![':'] + two_digits(self.minute as nat) + seq![':']
            + two_digits(self.second as nat)
    }

    /// Renders the start time as `YYYY-MM-DD HH:MM:SS`.
    pub fn text(&self) -> (r: String)
        requires
            self.wf(),
        ensures
            r@ == self.spec_text(),
    {
        let mut out = String::new();
        proof {
            reveal_strlit("-");
            reveal_strlit(" ");
            reveal_strlit(":");
        }
        push_two_digits(&mut out, (self.year / 100) as u64);
        push_two_digits(&mut out, (self.year % 100) as u64);
        out.append("-");
        push_two_digits(&mut out, self.month as u64);
        out.append("-");
        push_two_digits(&mut out, self.day as u64);
        out.append(" ");
        push_two_digits(&mut out, self.hour as u64);
        out.append(":");
        push_two_digits(&mut out, self.minute as u64);
        out.append(":");
        push_two_digits(&mut out, self.second as u64);
        proof {
            assert(out@ =~= self.spec_text());
        }
        out
    }
}

/// One snapshot of one process.
#[derive(Debug, Clone)]
pub struct MyProcess {
    pub name: String,
    pub id: MyProcessID,
    pub parent_id: MyProcessID,
    /// CPU usage in hundredths of a percent.
    pub cpu_hundredths: u32,
    pub memory_bytes: u64,
    pub state: MyProcState,
    pub start_time: Option<StartTime>,
    pub user: String,
    pub command: String,
    /// Paths of the files the process holds open.
    pub files_using: Vec<String>,
}

impl MyProcess {
    pub open spec fn wf(&self) -> bool {
        self.start_time matches Some(t) ==> t.wf()
    }
}

/// CPU usage as text with two decimals, e.g. `"12.05"`.
pub open spec fn cpu_text(hundredths: nat) -> Seq<char> {
    decimal(hundredths / 100) + seq!['.'] + two_digits(hundredths % 100)
}

/// Renders a CPU usage given in hundredths of a percent.
pub fn render_cpu(hundredths: u32) -> (r: String)
    ensures
        r@ == cpu_text(hundredths as nat),
{
    let mut out = String::new();
    push_decimal(&mut out, (hundredths / 100) as u64);
    proof {
        reveal_strlit(".");
    }
    out.append(".");
    push_two_digits(&mut out, (hundredths % 100) as u64);
    proof {
        assert(out@ =~= cpu_text(hundredths as nat));
    }
    out
}

/// Renders an integer in decimal.
pub fn render_integer(n: i64) -> (r: String)
    ensures
        r@ == crate::text::signed_decimal(n as int),
{
    let mut out = String::new();
    push_signed_decimal(&mut out, n);
    assert(out@ =~= crate::text::signed_decimal(n as int));
    out
}

/// Renders an unsigned integer in decimal.
pub fn render_unsigned(n: u64) -> (r: String)
    ensures
        r@ == decimal(n as nat),
{
    let mut out = String::new();
    push_decimal(&mut out, n);
    assert(out@ =~= decimal(n as nat));
    out
}

} // verus!
