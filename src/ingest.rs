use vstd::prelude::*;

verus! {

/// Page counts of a process's resident set, with the page size in bytes.
#[derive(Debug, Clone, Copy, PartialEq, Eq)]
pub struct PageCounts {
    pub resident: u64,
    pub shared: u64,
    pub page_size: u64,
}

pub open spec fn saturate(n: int) -> u64 {
    if n < 0 {
        0
    } else if n > u64::MAX {
        u64::MAX
    } else {
        n as u64
    }
}

/// Private memory of a process in bytes.
pub trait MemoryBytes {
    spec fn spec_memory_bytes(&self) -> u64;

    fn memory_bytes(&self) -> (r: u64)
        ensures
            r == self.spec_memory_bytes(),
    ;
}

impl MemoryBytes for PageCounts {
    /// Resident pages not shared, times the page size, both steps saturating.
    open spec fn spec_memory_bytes(&self) -> u64 {
        saturate(saturate(self.resident - self.shared) * self.page_size)
    }

    fn memory_bytes(&self) -> (r: u64) {
        let private = self.resident.saturating_sub(self.shared);
        match private.checked_mul(self.page_size) {
            Some(bytes) => bytes,
            None => u64::MAX,
        }
    }
}

/// The arguments joined by single spaces.
pub open spec fn joined(args: Seq<Seq<char>>) -> Seq<char>
    decreases args.len(),
{
    if args.len() == 0 {
        Seq::empty()
    } else if args.len() == 1 {
        args[0]
    } else {
        joined(args.drop_last()) + seq![' '] + args.last()
    }
}

/// The command line of a process as one string.
pub trait CommandString {
    spec fn spec_command(&self) -> Seq<char>;

    fn command(&self) -> (r: String)
        ensures
            r@ == self.spec_command(),
    ;
}

impl CommandString for Option<Vec<String>> {
    /// The arguments joined by spaces; `"unknown"` when they could not be read.
    open spec fn spec_command(&self) -> Seq<char> {
        match self {
            Some(args) => joined(args@.map_values(|a: String| a@)),
            None => "unknown"@,
        }
    }

    fn command(&self) -> (r: String) {
        match self {
            None => String::from_str("unknown"),
            Some(args) => {
                let ghost views = args@.map_values(|a: String| a@);
                let mut out = String::new();
                let mut i: usize = 0;
                while i < args.len()
                    invariant
                        i <= args@.len(),
                        views == args@.map_values(|a: String| a@),
                        out@ == joined(views.take(i as int)),
                    decreases args@.len() - i,
                {
                    proof {
                        reveal_strlit(" ");
                        assert(views.take(i + 1).drop_last() =~= views.take(i as int));
                        assert(views.take(i + 1).last() == args@[i as int]@);
                    }
                    if i > 0 {
                        out.append(" ");
                    }
                    out.append(args[i].as_str());
                    proof {
                        if i == 0 {
                            assert(out@ =~= joined(views.take(1)));
                        } else {
                            assert(out@ =~= joined(views.take(i + 1)));
                        }
                    }
                    i = i + 1;
                }
                assert(views.take(args@.len() as int) =~= views);
                out
            },
        }
    }
}

} // verus!
