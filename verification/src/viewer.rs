//! The paged hex viewer: a bounded page of fixed units is read and
//! rendered, the session pauses for the user, and the offset advances by
//! exactly what was rendered.  A faulting unit is reported and the page
//! goes on past it.

use vstd::prelude::*;
use crate::codec::{bytes_to_hex, hex_upper_of, lemma_hex_upper_len};
use crate::memread::{ReadError, read_bytes};
use crate::strutil::trim_ws_spec;
use crate::strutil::trim_ws;
use benfred_read_process_memory::ProcessHandle;

verus! {

/// The page budget: how many bytes are rendered before the viewer
/// pauses for the user.
pub const PAGE_BYTES: u64 = 400;

/// The fixed read unit within a page.
pub const UNIT_BYTES: u64 = 40;

/// The ephemeral state of one paged viewing: the range being shown and
/// how far into it the viewer has come.
#[derive(Clone, Copy, Debug, PartialEq, Eq, Structural)]
pub struct ViewSession {
    pub start: u64,
    pub end: u64,
    pub offset: u64,
}

impl ViewSession {
    /// The range is ordered and the offset stays within it.
    pub open spec fn wf(self) -> bool {
        self.start <= self.end && self.offset <= self.end - self.start
    }

    /// How many bytes of the range are still unrendered.
    pub open spec fn remaining(self) -> int {
        self.end - self.start - self.offset
    }

    /// Opens a session over the given range, at its beginning.
    pub fn new(start: u64, end: u64) -> (s: Self)
        requires
            start <= end,
        ensures
            s.wf(),
            s.start == start,
            s.end == end,
            s.offset == 0,
    {
        ViewSession { start, end, offset: 0 }
    }
}

/// The length of the next page: the page budget, or the rest of the
/// range when that is smaller.
pub open spec fn page_len_spec(s: ViewSession) -> int {
    if s.remaining() < PAGE_BYTES {
        s.remaining()
    } else {
        PAGE_BYTES as int
    }
}

/// The length of the next page.
pub fn page_len(s: &ViewSession) -> (r: u64)
    requires
        s.wf(),
    ensures
        r == page_len_spec(*s),
{
    let rem = s.end - s.start - s.offset;
    if rem < PAGE_BYTES {
        rem
    } else {
        PAGE_BYTES
    }
}

/// How many read units a page of the given length takes.
pub open spec fn unit_count(page: int) -> int {
    (page + 39) / 40
}

/// The size of the `j`-th read unit of a page: the fixed unit, or what
/// is left of the page for the last one.
pub open spec fn unit_size_at(page: int, j: int) -> int {
    if page - 40 * j < 40 {
        page - 40 * j
    } else {
        40
    }
}

/// The units of a page partition it exactly: every unit is one to forty
/// bytes, all but the last are forty, no unit passes the page's end, and
/// together they cover it.
pub proof fn lemma_unit_partition(page: int)
    requires
        0 <= page <= 400,
    ensures
        unit_count(page) >= 0,
        page > 0 ==> unit_count(page) >= 1,
        forall|j: int| 0 <= j < unit_count(page) ==> 1 <= #[trigger] unit_size_at(page, j) <= 40,
        forall|j: int|
            0 <= j < unit_count(page) ==> 40 * j + #[trigger] unit_size_at(page, j) <= page,
        forall|j: int| 0 <= j < unit_count(page) - 1 ==> #[trigger] unit_size_at(page, j) == 40,
        unit_count(page) > 0 ==> 40 * (unit_count(page) - 1) + unit_size_at(
            page,
            unit_count(page) - 1,
        ) == page,
{
}

/// The viewer's states: rendering a page, waiting for the user between
/// pages, or done.
#[derive(Clone, Copy, Debug, PartialEq, Eq, Structural)]
pub enum ViewerState {
    Active,
    AwaitingUserInput,
    Finished,
}

/// What the user may answer between pages: next page, quit, or
/// something rejected.
#[derive(Clone, Copy, Debug, PartialEq, Eq, Structural)]
pub enum ViewerCmd {
    Next,
    Quit,
    Invalid,
}

/// One rendered unit: its bytes as unseparated upper-case hexadecimal,
/// or the report of a read fault.
#[derive(Debug)]
pub enum UnitOutcome {
    Hex(String),
    Fault(String),
}

/// The text a read failure carries.
pub open spec fn fault_text(e: ReadError) -> Seq<char> {
    match e {
        ReadError::OpenFailed(m) => m@,
        ReadError::ReadFault(m) => m@,
    }
}

/// The outcome renders the read result: hexadecimal for bytes, the
/// fault's report otherwise.
pub open spec fn rendered_of(inp: Result<Vec<u8>, ReadError>, out: UnitOutcome) -> bool {
    match inp {
        Ok(b) => out matches UnitOutcome::Hex(h) && h@ == hex_upper_of(b@),
        Err(e) => out matches UnitOutcome::Fault(m) && m@ == fault_text(e),
    }
}

/// Renders each unit's read result in order, keeping the unit's read
/// address and length beside it: bytes become upper-case hexadecimal,
/// and a faulting unit becomes one fault report while every later unit
/// is still rendered.
pub fn render_units(results: Vec<(u64, usize, Result<Vec<u8>, ReadError>)>) -> (r: Vec<
    (u64, usize, UnitOutcome),
>)
    ensures
        r@.len() == results@.len(),
        forall|j: int| 0 <= j < results@.len() ==> (#[trigger] r@[j]).0 == results@[j].0,
        forall|j: int| 0 <= j < results@.len() ==> (#[trigger] r@[j]).1 == results@[j].1,
        forall|j: int|
            0 <= j < results@.len() ==> rendered_of(results@[j].2, (#[trigger] r@[j]).2),
{
    let ghost all = results@;
    let mut rest = results;
    let n = rest.len();
    let mut out: Vec<(u64, usize, UnitOutcome)> = Vec::new();
    let mut i: usize = 0;
    while rest.len() > 0
        invariant
            all.len() == n,
            rest@ == all.subrange(i as int, all.len() as int),
            0 <= i <= n,
            out@.len() == i,
            forall|j: int| 0 <= j < i ==> (#[trigger] out@[j]).0 == all[j].0,
            forall|j: int| 0 <= j < i ==> (#[trigger] out@[j]).1 == all[j].1,
            forall|j: int| 0 <= j < i ==> rendered_of(all[j].2, (#[trigger] out@[j]).2),
        decreases rest@.len(),
    {
        let (addr, len, res) = rest.remove(0);
        proof {
            assert(i < all.len());
            assert(all.subrange(i as int, all.len() as int).first() == all[i as int]);
            assert(rest@ =~= all.subrange((i + 1) as int, all.len() as int));
        }
        match res {
            Ok(bytes) => {
                let hx = bytes_to_hex(bytes.as_slice());
                out.push((addr, len, UnitOutcome::Hex(hx)));
            },
            Err(e) => match e {
                ReadError::OpenFailed(m) => out.push((addr, len, UnitOutcome::Fault(m))),
                ReadError::ReadFault(m) => out.push((addr, len, UnitOutcome::Fault(m))),
            },
        }
        i = i + 1;
    }
    out
}

/// Reads the units of one page from the target, advancing the session's
/// offset by exactly the page length, one unit at a time: a faulting
/// unit leaves its error in place and the later units are still read.
/// Each entry carries the address and length of the read it was issued
/// with: the `j`-th unit is read at the page's start plus forty times
/// `j`, takes its exact unit size, and never passes the session's end
/// address.
pub fn read_page_units(h: &ProcessHandle, sess: &mut ViewSession) -> (r: Vec<
    (u64, usize, Result<Vec<u8>, ReadError>),
>)
    requires
        old(sess).wf(),
    ensures
        final(sess).start == old(sess).start,
        final(sess).end == old(sess).end,
        final(sess).offset == old(sess).offset + page_len_spec(*old(sess)),
        final(sess).wf(),
        r@.len() == unit_count(page_len_spec(*old(sess))),
        forall|j: int|
            0 <= j < r@.len() ==> (#[trigger] r@[j]).0 == old(sess).start + old(sess).offset + 40
                * j,
        forall|j: int|
            0 <= j < r@.len() ==> (#[trigger] r@[j]).1 == unit_size_at(
                page_len_spec(*old(sess)),
                j,
            ),
        forall|j: int| 0 <= j < r@.len() ==> (#[trigger] r@[j]).0 + r@[j].1 <= old(sess).end,
        forall|j: int|
            0 <= j < r@.len() ==> ((#[trigger] r@[j]).2 matches Ok(b) ==> b@.len() == r@[j].1),
{
    let page = page_len(sess);
    let mut done: u64 = 0;
    let mut out: Vec<(u64, usize, Result<Vec<u8>, ReadError>)> = Vec::new();
    while done < page
        invariant
            sess.start == old(sess).start,
            sess.end == old(sess).end,
            old(sess).wf(),
            page == page_len_spec(*old(sess)),
            sess.offset == old(sess).offset + done,
            sess.wf(),
            0 <= done <= page,
            done < page ==> done % 40 == 0,
            out@.len() == unit_count(done as int),
            forall|j: int|
                0 <= j < out@.len() ==> (#[trigger] out@[j]).0 == old(sess).start + old(
                    sess,
                ).offset + 40 * j,
            forall|j: int|
                0 <= j < out@.len() ==> (#[trigger] out@[j]).1 == unit_size_at(page as int, j),
            forall|j: int|
                0 <= j < out@.len() ==> (#[trigger] out@[j]).0 + out@[j].1 <= old(sess).end,
            forall|j: int|
                0 <= j < out@.len() ==> ((#[trigger] out@[j]).2 matches Ok(b) ==> b@.len()
                    == out@[j].1),
        decreases page - done,
    {
        let u: u64 = if page - done < 40 {
            page - done
        } else {
            40
        };
        let addr = sess.start + sess.offset;
        proof {
            // No unit read passes the caller's end address.
            assert(addr + u <= sess.end);
            assert(out@.len() * 40 == done);
            assert(u == unit_size_at(page as int, out@.len() as int));
        }
        let res = read_bytes(h, addr, u as usize);
        out.push((addr, u as usize, res));
        sess.offset = sess.offset + u;
        done = done + u;
    }
    out
}

/// Reads and renders one page: the session advances by exactly the page
/// length, and every unit of the page appears in the output, rendered or
/// reported, each beside the address and length it was read with — in
/// particular no read passes the session's end address.
pub fn run_page(h: &ProcessHandle, sess: &mut ViewSession) -> (r: Vec<(u64, usize, UnitOutcome)>)
    requires
        old(sess).wf(),
    ensures
        final(sess).start == old(sess).start,
        final(sess).end == old(sess).end,
        final(sess).offset == old(sess).offset + page_len_spec(*old(sess)),
        final(sess).wf(),
        r@.len() == unit_count(page_len_spec(*old(sess))),
        forall|j: int|
            0 <= j < r@.len() ==> (#[trigger] r@[j]).0 == old(sess).start + old(sess).offset + 40
                * j,
        forall|j: int|
            0 <= j < r@.len() ==> (#[trigger] r@[j]).1 == unit_size_at(
                page_len_spec(*old(sess)),
                j,
            ),
        forall|j: int| 0 <= j < r@.len() ==> (#[trigger] r@[j]).0 + r@[j].1 <= old(sess).end,
        forall|j: int|
            0 <= j < r@.len() ==> ((#[trigger] r@[j]).2 matches UnitOutcome::Hex(h) ==> h@.len()
                == 2 * unit_size_at(page_len_spec(*old(sess)), j)),
{
    let results = read_page_units(h, sess);
    let ghost raw = results@;
    let r = render_units(results);
    proof {
        assert forall|j: int|
            0 <= j < r@.len() implies ((#[trigger] r@[j]).2 matches UnitOutcome::Hex(h)
            ==> h@.len() == 2 * unit_size_at(page_len_spec(*old(sess)), j)) by {
            if r@[j].2 matches UnitOutcome::Hex(h) {
                assert(rendered_of(raw[j].2, r@[j].2));
                match raw[j].2 {
                    Ok(b) => {
                        lemma_hex_upper_len(b@);
                    },
                    Err(_) => {},
                }
            }
        }
    }
    r
}

/// Where the viewer stands after a page has rendered: done when the
/// offset has reached the range's end, else waiting for the user.
pub open spec fn after_page_spec(s: ViewSession) -> ViewerState {
    if s.offset == s.end - s.start {
        ViewerState::Finished
    } else {
        ViewerState::AwaitingUserInput
    }
}

/// The transition taken after a page has rendered.
pub fn after_page(sess: &ViewSession) -> (st: ViewerState)
    requires
        sess.wf(),
    ensures
        st == after_page_spec(*sess),
{
    if sess.offset == sess.end - sess.start {
        ViewerState::Finished
    } else {
        ViewerState::AwaitingUserInput
    }
}

/// What the waiting viewer does with an answer: next resumes, quit
/// finishes, anything else is rejected and the viewer keeps waiting.
pub open spec fn step_input_spec(cmd: ViewerCmd) -> ViewerState {
    match cmd {
        ViewerCmd::Next => ViewerState::Active,
        ViewerCmd::Quit => ViewerState::Finished,
        ViewerCmd::Invalid => ViewerState::AwaitingUserInput,
    }
}

/// The transition taken on the user's answer between pages.
pub fn step_input(cmd: &ViewerCmd) -> (st: ViewerState)
    ensures
        st == step_input_spec(*cmd),
{
    match cmd {
        ViewerCmd::Next => ViewerState::Active,
        ViewerCmd::Quit => ViewerState::Finished,
        ViewerCmd::Invalid => ViewerState::AwaitingUserInput,
    }
}

/// What the viewer's sub-prompt accepts: exactly `n` and `q`, after
/// trimming.
pub open spec fn viewer_cmd_spec(s: Seq<char>) -> ViewerCmd {
    let t = trim_ws_spec(s);
    if t == "n"@ {
        ViewerCmd::Next
    } else if t == "q"@ {
        ViewerCmd::Quit
    } else {
        ViewerCmd::Invalid
    }
}

/// Parses the viewer sub-prompt's input.
pub fn parse_viewer_cmd(s: &str) -> (r: ViewerCmd)
    ensures
        r == viewer_cmd_spec(s@),
{
    let t = trim_ws(s);
    if t == String::from_str("n") {
        ViewerCmd::Next
    } else if t == String::from_str("q") {
        ViewerCmd::Quit
    } else {
        ViewerCmd::Invalid
    }
}

} // verus!
