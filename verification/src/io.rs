//! Reading and writing through handles.
//!
//! The kernel decides what a `read` or `write` call comes to and where in
//! physical memory the caller's buffer lies; moving the bytes is left to
//! whoever drives the devices.

use crate::flags::VmFlags;
use crate::kernel::Kernel;
use crate::process::{Fd, Process};
use crate::space::{translated, Pte};
use crate::syscall::{is_console_input, is_console_output, STDDEBUG, STDIN, STDOUT};
use crate::usermem::{chunks_of, total_len, user_chunks, Chunk};
use vstd::prelude::*;
use vstd::string::*;

verus! {

/// The number of keys whose state the input device reports.
pub const KEYS: usize = 256;

/// The flags that a page must have to be read from: `V` and `R`.
pub open spec fn readable_flags() -> VmFlags {
    VmFlags { valid: true, readable: true, ..VmFlags::zero() }
}

/// The flags that a page must have to be written to: `V` and `W`.
pub open spec fn writable_flags() -> VmFlags {
    VmFlags { valid: true, writable: true, ..VmFlags::zero() }
}

pub fn readable() -> (f: VmFlags)
    ensures
        f == readable_flags(),
{
    let mut f = VmFlags::empty();
    f.valid = true;
    f.readable = true;
    f
}

pub fn writable() -> (f: VmFlags)
    ensures
        f == writable_flags(),
{
    let mut f = VmFlags::empty();
    f.valid = true;
    f.writable = true;
    f
}

/// What is to be done for a `write` or `read` call.
#[derive(Debug)]
pub enum Transfer {
    /// Nothing: the call is refused and answers -1.
    Refused,
    /// The bytes go to, or come from, the console; the call answers `answer`.
    Console { chunks: Vec<Chunk>, answer: isize },
    /// The bytes go to the frame buffer, which is then shown; the call
    /// answers `answer`.
    Display { chunks: Vec<Chunk>, answer: isize },
    /// The states of the keys are stored, one byte for each key, 1 for a
    /// key that is down; the call answers `answer`.
    Keys { chunks: Vec<Chunk>, answer: isize },
    /// The pieces are handed to the file or pipe, whose answer is the
    /// answer of the call.
    File { fd: Fd, chunks: Vec<Chunk> },
}

/// What a transfer is, with its pieces as a plain list.
pub enum TransferSpec {
    Refused,
    Console { chunks: Seq<Chunk>, answer: isize },
    Display { chunks: Seq<Chunk>, answer: isize },
    Keys { chunks: Seq<Chunk>, answer: isize },
    File { fd: Fd, chunks: Seq<Chunk> },
}

impl View for Transfer {
    type V = TransferSpec;

    open spec fn view(&self) -> TransferSpec {
        match self {
            Transfer::Refused => TransferSpec::Refused,
            Transfer::Console { chunks, answer } => TransferSpec::Console {
                chunks: chunks@,
                answer: *answer,
            },
            Transfer::Display { chunks, answer } => TransferSpec::Display {
                chunks: chunks@,
                answer: *answer,
            },
            Transfer::Keys { chunks, answer } => TransferSpec::Keys {
                chunks: chunks@,
                answer: *answer,
            },
            Transfer::File { fd, chunks } => TransferSpec::File { fd: *fd, chunks: chunks@ },
        }
    }
}

/// The smaller of two numbers.
pub open spec fn least(a: usize, b: usize) -> usize {
    if a <= b {
        a
    } else {
        b
    }
}

/// What a `write` of `count` bytes from `buf` to the handle `fd` comes to
/// for a process with the mappings `map` and the handles `fds`, with a frame
/// buffer of `fb_len` bytes.
///
/// The console takes the bytes only if the whole buffer can be read, and
/// its first byte even where no byte is asked for.  The
/// frame buffer takes what fits into it of the pieces that can be read, and
/// the call answers `count` all the same.  A file or pipe that can be
/// written to takes the pieces that can be read, if there is one at all.
/// Everything else is refused.
pub open spec fn write_planned(
    map: Map<u64, Pte>,
    fds: Seq<Option<Fd>>,
    fd: usize,
    buf: usize,
    count: usize,
    fb_len: usize,
) -> TransferSpec {
    if fd == STDOUT || fd == STDDEBUG {
        let chunks = chunks_of(map, buf as u64, count, readable_flags());
        if translated(map, buf as u64, readable_flags()) is Some && total_len(chunks) == count
            && count <= isize::MAX {
            TransferSpec::Console { chunks, answer: count as isize }
        } else {
            TransferSpec::Refused
        }
    } else if fd < fds.len() && fds[fd as int] is Some && fds[fd as int]->0.can_write() {
        let handle = fds[fd as int]->0;
        if handle == Fd::VirtioGpu {
            if fb_len > 0 && count <= isize::MAX {
                TransferSpec::Display {
                    chunks: chunks_of(map, buf as u64, least(count, fb_len), readable_flags()),
                    answer: count as isize,
                }
            } else {
                TransferSpec::Refused
            }
        } else {
            let chunks = chunks_of(map, buf as u64, count, readable_flags());
            if chunks.len() > 0 {
                TransferSpec::File { fd: handle, chunks }
            } else {
                TransferSpec::Refused
            }
        }
    } else {
        TransferSpec::Refused
    }
}

/// What a `read` of `count` bytes into `buf` from the handle `fd` comes to
/// for a process with the mappings `map` and the handles `fds`.
///
/// The console gives bytes only if the whole buffer can be written, and
/// its first byte even where no byte is asked for.  The input device
/// stores the states of up to 256 keys under the same condition, and the
/// call answers `count`.  A file or pipe that can be
/// read from fills the pieces that can be written, if there is one at all.
/// Everything else is refused.
pub open spec fn read_planned(
    map: Map<u64, Pte>,
    fds: Seq<Option<Fd>>,
    fd: usize,
    buf: usize,
    count: usize,
) -> TransferSpec {
    if fd == STDIN {
        let chunks = chunks_of(map, buf as u64, count, writable_flags());
        if translated(map, buf as u64, writable_flags()) is Some && total_len(chunks) == count
            && count <= isize::MAX {
            TransferSpec::Console { chunks, answer: count as isize }
        } else {
            TransferSpec::Refused
        }
    } else if fd < fds.len() && fds[fd as int] is Some && fds[fd as int]->0.can_read() {
        let handle = fds[fd as int]->0;
        if handle == Fd::VirtioInput {
            let chunks = chunks_of(map, buf as u64, least(count, KEYS), writable_flags());
            if translated(map, buf as u64, writable_flags()) is Some && total_len(chunks)
                == least(count, KEYS) && count <= isize::MAX {
                TransferSpec::Keys { chunks, answer: count as isize }
            } else {
                TransferSpec::Refused
            }
        } else {
            let chunks = chunks_of(map, buf as u64, count, writable_flags());
            if chunks.len() > 0 {
                TransferSpec::File { fd: handle, chunks }
            } else {
                TransferSpec::Refused
            }
        }
    } else {
        TransferSpec::Refused
    }
}

/// Decides what a `write` of the process `process` comes to.
pub fn plan_write(process: &Process, fd: usize, buf: usize, count: usize, fb_len: usize) -> (plan:
    Transfer)
    requires
        process.address_space.wf(),
    ensures
        plan@ == write_planned(
            process.address_space@,
            process.fd_table@,
            fd,
            buf,
            count,
            fb_len,
        ),
{
    if is_console_output(fd) {
        let reachable = process.address_space.translate(buf as u64, readable()).is_some();
        let (chunks, covered) = user_chunks(&process.address_space, buf as u64, count, readable());
        if reachable && covered == count && count <= isize::MAX as usize {
            return Transfer::Console { chunks, answer: count as isize };
        }
        return Transfer::Refused;
    }
    match process.fd(fd) {
        None => Transfer::Refused,
        Some(handle) => {
            if !handle.writable() {
                return Transfer::Refused;
            }
            match handle {
                Fd::VirtioGpu => {
                    if fb_len == 0 || count > isize::MAX as usize {
                        return Transfer::Refused;
                    }
                    let len = if count <= fb_len {
                        count
                    } else {
                        fb_len
                    };
                    let (chunks, _) = user_chunks(
                        &process.address_space,
                        buf as u64,
                        len,
                        readable(),
                    );
                    Transfer::Display { chunks, answer: count as isize }
                },
                _ => {
                    let (chunks, _) = user_chunks(
                        &process.address_space,
                        buf as u64,
                        count,
                        readable(),
                    );
                    if chunks.len() == 0 {
                        Transfer::Refused
                    } else {
                        Transfer::File { fd: handle, chunks }
                    }
                },
            }
        },
    }
}

/// Decides what a `read` of the process `process` comes to.
pub fn plan_read(process: &Process, fd: usize, buf: usize, count: usize) -> (plan: Transfer)
    requires
        process.address_space.wf(),
    ensures
        plan@ == read_planned(process.address_space@, process.fd_table@, fd, buf, count),
{
    if is_console_input(fd) {
        let reachable = process.address_space.translate(buf as u64, writable()).is_some();
        let (chunks, covered) = user_chunks(&process.address_space, buf as u64, count, writable());
        if reachable && covered == count && count <= isize::MAX as usize {
            return Transfer::Console { chunks, answer: count as isize };
        }
        return Transfer::Refused;
    }
    match process.fd(fd) {
        None => Transfer::Refused,
        Some(handle) => {
            if !handle.readable() {
                return Transfer::Refused;
            }
            match handle {
                Fd::VirtioInput => {
                    let len = if count <= KEYS {
                        count
                    } else {
                        KEYS
                    };
                    let (chunks, covered) = user_chunks(
                        &process.address_space,
                        buf as u64,
                        len,
                        writable(),
                    );
                    let reachable = process.address_space.translate(
                        buf as u64,
                        writable(),
                    ).is_some();
                    if reachable && covered == len && count <= isize::MAX as usize {
                        Transfer::Keys { chunks, answer: count as isize }
                    } else {
                        Transfer::Refused
                    }
                },
                _ => {
                    let (chunks, _) = user_chunks(
                        &process.address_space,
                        buf as u64,
                        count,
                        writable(),
                    );
                    if chunks.len() == 0 {
                        Transfer::Refused
                    } else {
                        Transfer::File { fd: handle, chunks }
                    }
                },
            }
        },
    }
}

/// Where byte number `taken` of the path at the address `path` lies in
/// physical memory, for a process with the mappings `map`: where the page
/// of the byte can be read.  There is no such place behind the end of the
/// addresses.
pub open spec fn path_byte_place(map: Map<u64, Pte>, path: usize, taken: usize) -> Option<u64> {
    if path + taken <= usize::MAX {
        translated(map, (path + taken) as u64, readable_flags())
    } else {
        None
    }
}

/// Where byte number `taken` of the path at the address `path` lies, for
/// the process `process`.  A path is read byte by byte, each through its
/// own page, and is refused with the first byte that cannot be read.
pub fn path_byte(process: &Process, path: usize, taken: usize) -> (place: Option<u64>)
    requires
        process.address_space.wf(),
    ensures
        place == path_byte_place(process.address_space@, path, taken),
{
    match path.checked_add(taken) {
        Some(addr) => process.address_space.translate(addr as u64, readable()),
        None => None,
    }
}

/// Takes the next byte of a path that is being read: a zero ends the path
/// and is not part of it, every other byte is.  `true`: the path goes on.
pub fn path_step(text: &mut Vec<u8>, byte: u8) -> (more: bool)
    ensures
        more == (byte != 0),
        final(text)@ == if byte != 0 {
            old(text)@.push(byte)
        } else {
            old(text)@
        },
{
    if byte != 0 {
        text.push(byte);
        true
    } else {
        false
    }
}

/// Whether the bits `bits` name flags for opening a file and nothing else:
/// bit 0 for writing only, bit 1 for reading and writing, bit 9 to make
/// the file, bit 10 to empty it.
pub open spec fn open_flags_named(bits: u32) -> bool {
    bits < 0x800 && bits % 0x200 < 4
}

/// The access that a file opened with the flags `bits` gives, reading
/// first: no flag at all opens for reading, bit 0 for writing, and every
/// other flag without bit 0 for both.
pub open spec fn access_of(bits: u32) -> (bool, bool) {
    if bits == 0 {
        (true, false)
    } else if bits % 2 == 1 {
        (false, true)
    } else {
        (true, true)
    }
}

/// `OpenFlags::from_bits` of `tg_easy_fs`: whether every bit that is set
/// in `bits` is one of the flags, which are the bits 0, 1, 9 and 10.
#[verifier::external_body]
fn open_flags_known(bits: u32) -> (known: bool)
    ensures
        known == open_flags_named(bits),
{
    tg_easy_fs::OpenFlags::from_bits(bits).is_some()
}

/// `OpenFlags::read_write` of `tg_easy_fs`: whether a file opened with
/// these flags can be read, and whether it can be written.
#[verifier::external_body]
fn open_flags_read_write(bits: u32) -> (access: (bool, bool))
    requires
        open_flags_named(bits),
    ensures
        access == access_of(bits),
{
    tg_easy_fs::OpenFlags::from_bits_truncate(bits).read_write()
}

/// The low 32 bits of `flags`, in which the flags for opening a file lie.
pub open spec fn low_word(flags: usize) -> u32 {
    (flags as int % 0x1_0000_0000) as u32
}

/// The access that an `open` call with the flags `flags` asks for, reading
/// first.  `None` if the low 32 bits of `flags` hold a bit that is no flag.
pub fn open_access(flags: usize) -> (r: Option<(bool, bool)>)
    ensures
        r == if open_flags_named(low_word(flags)) {
            Some(access_of(low_word(flags)))
        } else {
            None
        },
{
    let low = (flags as u64 % 0x1_0000_0000) as u32;
    if open_flags_known(low) {
        Some(open_flags_read_write(low))
    } else {
        None
    }
}

/// What a path names, as far as the kernel itself serves it.
#[derive(Clone, Copy, PartialEq, Eq, Structural, Debug)]
pub enum PathKind {
    /// `/dev/gpu`: the frame buffer.
    Gpu,
    /// `/dev/input`: the keys.
    Input,
    /// Anything else: a file of the file system.
    File,
}

/// What the path `path` names.
pub open spec fn path_kind(path: Seq<char>) -> PathKind {
    if path == "/dev/gpu"@ {
        PathKind::Gpu
    } else if path == "/dev/input"@ {
        PathKind::Input
    } else {
        PathKind::File
    }
}

/// Tells the devices that the kernel serves itself from the files.
pub fn classify_path(path: &str) -> (kind: PathKind)
    ensures
        kind == path_kind(path@),
{
    if str_equal(path, "/dev/gpu") {
        PathKind::Gpu
    } else if str_equal(path, "/dev/input") {
        PathKind::Input
    } else {
        PathKind::File
    }
}

/// Whether two strings hold the same characters.
fn str_equal(a: &str, b: &str) -> (same: bool)
    ensures
        same == (a@ == b@),
{
    let n = a.unicode_len();
    if n != b.unicode_len() {
        return false;
    }
    let mut i: usize = 0;
    while i < n
        invariant
            i <= n,
            n == a@.len(),
            n == b@.len(),
            forall|k: int| 0 <= k < i ==> a@[k] == b@[k],
        decreases n - i,
    {
        if a.get_char(i) != b.get_char(i) {
            return false;
        }
        i = i + 1;
    }
    proof {
        assert(a@ =~= b@);
    }
    true
}

impl Kernel {
    /// Decides what a `write` of the process that runs comes to.  Without a
    /// running process the call is refused.
    pub fn write(&self, fd: usize, buf: usize, count: usize, fb_len: usize) -> (plan: Transfer)
        requires
            self.wf(),
        ensures
            plan@ == if self.has_running_process() {
                write_planned(
                    self.space_of(self.running_pid()),
                    self.process(self.running_pid()).fd_table@,
                    fd,
                    buf,
                    count,
                    fb_len,
                )
            } else {
                TransferSpec::Refused
            },
    {
        match self.current_pid() {
            None => Transfer::Refused,
            Some(pid) => match self.get_proc(pid) {
                None => Transfer::Refused,
                Some(process) => {
                    proof {
                        self.lemma_process(pid as int);
                    }
                    plan_write(process, fd, buf, count, fb_len)
                },
            },
        }
    }

    /// Decides what a `read` of the process that runs comes to.  Without a
    /// running process the call is refused.
    pub fn read(&self, fd: usize, buf: usize, count: usize) -> (plan: Transfer)
        requires
            self.wf(),
        ensures
            plan@ == if self.has_running_process() {
                read_planned(
                    self.space_of(self.running_pid()),
                    self.process(self.running_pid()).fd_table@,
                    fd,
                    buf,
                    count,
                )
            } else {
                TransferSpec::Refused
            },
    {
        match self.current_pid() {
            None => Transfer::Refused,
            Some(pid) => match self.get_proc(pid) {
                None => Transfer::Refused,
                Some(process) => {
                    proof {
                        self.lemma_process(pid as int);
                    }
                    plan_read(process, fd, buf, count)
                },
            },
        }
    }
}

} // verus!
