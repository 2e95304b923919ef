// The thumbnail worker's rules: what a confined child may call, what its ruleset denies, how a request
// is read and how a child's end becomes the job's one verdict.
use vstd::prelude::*;

verus! {

/// The worker's first byte: it can serve, or which of its two requirements is missing.
pub const READY: u8 = 82;

pub const NO_LIBRARY: u8 = 76;

pub const NO_LANDLOCK: u8 = 75;

/// Each job's one verdict, by its letter: a thumbnail came out, the file was at fault, or the job never
/// ran on the file.
pub const SUCCEEDED: u8 = 83;

pub const FAILED: u8 = 70;

pub const NOT_STARTED: u8 = 78;

/// A request is the thumbnail size as four little-endian bytes and then the film-strip flag.
pub const REQUEST_BYTES: usize = 5;

/// The child's exit codes: a verdict on the file, or a failure of this machine that judges nothing.
pub const CHILD_OK: i32 = 0;

pub const CHILD_REFUSED: i32 = 1;

pub const CHILD_MACHINE: i32 = 2;

/// A larger request is not a thumbnail.
pub const MAX_SIZE: u32 = 1024;

/// Every filesystem right that writes, creates, removes, renames or truncates; reads are not handled,
/// so libraries and the input still open.
pub const LANDLOCK_WRITE_V1: u64 = (1u64 << 1u64) | (0x1ffu64 << 4u64);

pub const LANDLOCK_REFER_V2: u64 = 1u64 << 13u64;

pub const LANDLOCK_TRUNCATE_V3: u64 = 1u64 << 14u64;

pub const LANDLOCK_WRITE_RIGHTS: u64 = LANDLOCK_WRITE_V1 | LANDLOCK_REFER_V2 | LANDLOCK_TRUNCATE_V3;

/// Truncation is a right only from ABI 3, so an older kernel gets no worker.
pub const LANDLOCK_TRUNCATE_ABI: i64 = 3;

/// From ABI 6 a scoped child can signal nothing outside its own domain.
pub const LANDLOCK_SCOPE_SIGNAL: u64 = 1u64 << 1u64;

pub const LANDLOCK_SCOPE_SIGNAL_ABI: i64 = 6;

/// seccomp_data holds the call number at byte 0, the audit arch at byte 4, and the low word of the first
/// argument at byte 16.
pub const SECCOMP_DATA_NR: u32 = 0;

pub const SECCOMP_DATA_ARCH: u32 = 4;

pub const SECCOMP_DATA_ARG0_LOW: u32 = 16;

/// An x32 call carries the x86_64 arch and this bit in its number.
pub const X32_SYSCALL_BIT: u32 = 0x4000_0000;

/// BPF opcodes: load a word of seccomp_data, jump on equal, greater-or-equal or any common bit, return.
pub const BPF_LD_W_ABS: u16 = 0x20;

pub const BPF_JEQ_K: u16 = 0x15;

pub const BPF_JGE_K: u16 = 0x35;

pub const BPF_JSET_K: u16 = 0x45;

pub const BPF_RET_K: u16 = 0x06;

pub const SECCOMP_RET_ALLOW: u32 = 0x7fff_0000;

pub const SECCOMP_RET_KILL_PROCESS: u32 = 0x8000_0000;

pub const SECCOMP_RET_ERRNO: u32 = 0x0005_0000;

pub const EPERM: u32 = 1;

pub const ENOSYS: u32 = 38;

pub const SYS_CLONE3: u32 = 435;

pub const CLONE_THREAD: u32 = 0x0001_0000;

/// The two architectures the worker is built for, each with its own call numbers.
#[derive(Clone, Copy, Debug, PartialEq, Eq, Structural)]
pub enum Arch {
    X86_64,
    Aarch64,
}

/// The only calling convention a job may use, from linux/audit.h.
pub open spec fn native(arch: Arch) -> u32 {
    match arch {
        Arch::X86_64 => 0xc000_003eu32,
        Arch::Aarch64 => 0xc000_00b7u32,
    }
}

pub fn audit_arch_native(arch: Arch) -> (r: u32)
    ensures
        r == native(arch),
{
    match arch {
        Arch::X86_64 => 0xc000_003e,
        Arch::Aarch64 => 0xc000_00b7,
    }
}

/// clone(2)'s number, allowed only for a thread.
pub open spec fn clone_number(arch: Arch) -> u32 {
    match arch {
        Arch::X86_64 => 56u32,
        Arch::Aarch64 => 220u32,
    }
}

pub fn sys_clone(arch: Arch) -> (r: u32)
    ensures
        r == clone_number(arch),
{
    match arch {
        Arch::X86_64 => 56,
        Arch::Aarch64 => 220,
    }
}

/// Landlock leaves a file's mode, owner, times, xattrs and ioctl flags to its owner, so these calls are
/// refused; numbers from each arch's asm/unistd_64.h, io_uring for its xattr ops.
pub fn metadata_writes(arch: Arch) -> (r: Vec<(&'static str, u32)>)
    ensures
        r@.map_values(|e: (&'static str, u32)| e.1) == metadata_numbers(arch),
{
    let mut r: Vec<(&'static str, u32)> = Vec::new();
    match arch {
        Arch::X86_64 => {
            r.push(("ioctl", 16));
            r.push(("chmod", 90));
            r.push(("fchmod", 91));
            r.push(("chown", 92));
            r.push(("fchown", 93));
            r.push(("lchown", 94));
            r.push(("utime", 132));
            r.push(("setxattr", 188));
            r.push(("lsetxattr", 189));
            r.push(("fsetxattr", 190));
            r.push(("removexattr", 197));
            r.push(("lremovexattr", 198));
            r.push(("fremovexattr", 199));
            r.push(("utimes", 235));
            r.push(("fchownat", 260));
            r.push(("futimesat", 261));
            r.push(("fchmodat", 268));
            r.push(("utimensat", 280));
        },
        Arch::Aarch64 => {
            r.push(("setxattr", 5));
            r.push(("lsetxattr", 6));
            r.push(("fsetxattr", 7));
            r.push(("removexattr", 14));
            r.push(("lremovexattr", 15));
            r.push(("fremovexattr", 16));
            r.push(("ioctl", 29));
            r.push(("fchmod", 52));
            r.push(("fchmodat", 53));
            r.push(("fchownat", 54));
            r.push(("fchown", 55));
            r.push(("utimensat", 88));
        },
    }
    r.push(("io_uring_setup", 425));
    r.push(("fchmodat2", 452));
    r.push(("setxattrat", 463));
    r.push(("removexattrat", 466));
    r.push(("file_setattr", 469));
    assert(r@.map_values(|e: (&'static str, u32)| e.1) =~= metadata_numbers(arch));
    r
}

pub open spec fn metadata_numbers(arch: Arch) -> Seq<u32> {
    match arch {
        Arch::X86_64 => seq![
            16u32,
            90,
            91,
            92,
            93,
            94,
            132,
            188,
            189,
            190,
            197,
            198,
            199,
            235,
            260,
            261,
            268,
            280,
            425,
            452,
            463,
            466,
            469,
        ],
        Arch::Aarch64 => seq![5u32, 6, 7, 14, 15, 16, 29, 52, 53, 54, 55, 88, 425, 452, 463, 466, 469],
    }
}

/// A process a job starts would outlive the kill that ends the job; aarch64 has no fork or vfork call,
/// its processes start only through clone, which the thread check gates.
pub fn new_processes(arch: Arch) -> (r: Vec<(&'static str, u32)>)
    ensures
        r@.map_values(|e: (&'static str, u32)| e.1) == process_numbers(arch),
{
    let mut r: Vec<(&'static str, u32)> = Vec::new();
    match arch {
        Arch::X86_64 => {
            r.push(("fork", 57));
            r.push(("vfork", 58));
        },
        Arch::Aarch64 => {},
    }
    assert(r@.map_values(|e: (&'static str, u32)| e.1) =~= process_numbers(arch));
    r
}

pub open spec fn process_numbers(arch: Arch) -> Seq<u32> {
    match arch {
        Arch::X86_64 => seq![57u32, 58],
        Arch::Aarch64 => Seq::empty(),
    }
}

/// Every call the filter answers EPERM by its number.
pub open spec fn refused(arch: Arch) -> Seq<u32> {
    metadata_numbers(arch) + process_numbers(arch)
}

/// One BPF instruction, as struct sock_filter lays it out.
#[derive(Clone, Copy, Debug, PartialEq, Eq, Structural)]
pub struct SockFilter {
    pub code: u16,
    pub jt: u8,
    pub jf: u8,
    pub k: u32,
}

/// How far a jump from `from` to `to` skips: the instructions after the jumping one.
pub open spec fn skip(from: nat, to: nat) -> u8 {
    (to - from - 1) as u8
}

pub open spec fn op(code: u16, jt: u8, jf: u8, k: u32) -> SockFilter {
    SockFilter { code, jt, jf, k }
}

/// The listed checks from the `i`th on: each jumps to the refusal when the number is its own.
pub open spec fn listed_checks(rf: Seq<u32>, i: nat) -> Seq<SockFilter>
    decreases rf.len() - i,
{
    if i >= rf.len() {
        Seq::empty()
    } else {
        seq![op(BPF_JEQ_K, skip(5 + i, 10 + rf.len()), 0, rf[i as int])] + listed_checks(rf, i + 1)
    }
}

/// The filter: a foreign arch is killed; an x32 call, a listed call or a clone that is not a thread
/// answers EPERM; clone3 answers ENOSYS, its flags sitting behind a pointer; every other call runs.
pub open spec fn filter_program(arch: Arch) -> Seq<SockFilter> {
    let rf = refused(arch);
    let n = rf.len();
    seq![
        op(BPF_LD_W_ABS, 0, 0, SECCOMP_DATA_ARCH),
        op(BPF_JEQ_K, 1, 0, native(arch)),
        op(BPF_RET_K, 0, 0, SECCOMP_RET_KILL_PROCESS),
        op(BPF_LD_W_ABS, 0, 0, SECCOMP_DATA_NR),
        op(BPF_JGE_K, skip(4, 10 + n), 0, X32_SYSCALL_BIT),
    ] + listed_checks(rf, 0) + seq![
        op(BPF_JEQ_K, skip(5 + n, 11 + n), 0, SYS_CLONE3),
        op(BPF_JEQ_K, 0, skip(6 + n, 9 + n), clone_number(arch)),
        op(BPF_LD_W_ABS, 0, 0, SECCOMP_DATA_ARG0_LOW),
        op(BPF_JSET_K, skip(8 + n, 9 + n), skip(8 + n, 10 + n), CLONE_THREAD),
        op(BPF_RET_K, 0, 0, SECCOMP_RET_ALLOW),
        op(BPF_RET_K, 0, 0, SECCOMP_RET_ERRNO | EPERM),
        op(BPF_RET_K, 0, 0, SECCOMP_RET_ERRNO | ENOSYS),
    ]
}

/// The word a load reads from seccomp_data, for the three offsets the filter loads.
pub open spec fn loaded_word(k: u32, arch: u32, nr: u32, arg0: u32) -> Option<u32> {
    if k == SECCOMP_DATA_ARCH {
        Some(arch)
    } else if k == SECCOMP_DATA_NR {
        Some(nr)
    } else if k == SECCOMP_DATA_ARG0_LOW {
        Some(arg0)
    } else {
        None
    }
}

/// What the kernel's BPF machine answers, running the program from `at` with `acc` loaded, for a call
/// of number `nr` under audit arch `arch` whose first argument's low word is `arg0`; None where the
/// program leaves what this machine models.
pub open spec fn run_from(prog: Seq<SockFilter>, at: int, acc: u32, arch: u32, nr: u32, arg0: u32) -> Option<u32>
    decreases prog.len() - at,
{
    if at < 0 || at >= prog.len() {
        None
    } else {
        let i = prog[at];
        if i.code == BPF_LD_W_ABS {
            match loaded_word(i.k, arch, nr, arg0) {
                Some(v) => run_from(prog, at + 1, v, arch, nr, arg0),
                None => None,
            }
        } else if i.code == BPF_JEQ_K || i.code == BPF_JGE_K || i.code == BPF_JSET_K {
            let taken = if i.code == BPF_JEQ_K {
                acc == i.k
            } else if i.code == BPF_JGE_K {
                acc >= i.k
            } else {
                acc & i.k != 0
            };
            let next = at + 1 + (if taken {
                i.jt
            } else {
                i.jf
            }) as int;
            if next < prog.len() {
                run_from(prog, next, acc, arch, nr, arg0)
            } else {
                None
            }
        } else if i.code == BPF_RET_K {
            Some(i.k)
        } else {
            None
        }
    }
}

/// What the filter must answer each call.
pub open spec fn intended(arch: Arch, call_arch: u32, nr: u32, arg0: u32) -> u32 {
    if call_arch != native(arch) {
        SECCOMP_RET_KILL_PROCESS
    } else if nr >= X32_SYSCALL_BIT {
        SECCOMP_RET_ERRNO | EPERM
    } else if refused(arch).contains(nr) {
        SECCOMP_RET_ERRNO | EPERM
    } else if nr == SYS_CLONE3 {
        SECCOMP_RET_ERRNO | ENOSYS
    } else if nr == clone_number(arch) {
        if arg0 & CLONE_THREAD != 0 {
            SECCOMP_RET_ALLOW
        } else {
            SECCOMP_RET_ERRNO | EPERM
        }
    } else {
        SECCOMP_RET_ALLOW
    }
}

fn skip_of(from: usize, to: usize) -> (r: u8)
    requires
        from < to,
        to - from - 1 < 256,
    ensures
        r == skip(from as nat, to as nat),
{
    (to - from - 1) as u8
}

/// The call filter a confined child installs.
pub fn call_filter(arch: Arch) -> (program: Vec<SockFilter>)
    ensures
        program@ == filter_program(arch),
{
    let mut listed: Vec<u32> = Vec::new();
    let writes = metadata_writes(arch);
    let spawns = new_processes(arch);
    let mut i: usize = 0;
    while i < writes.len()
        invariant
            i <= writes.len(),
            writes@.map_values(|e: (&'static str, u32)| e.1) == metadata_numbers(arch),
            listed@ == metadata_numbers(arch).take(i as int),
        decreases writes.len() - i,
    {
        listed.push(writes[i].1);
        assert(listed@ =~= metadata_numbers(arch).take(i + 1));
        i = i + 1;
    }
    let mut j: usize = 0;
    assert(metadata_numbers(arch).take(i as int) =~= metadata_numbers(arch));
    while j < spawns.len()
        invariant
            j <= spawns.len(),
            spawns@.map_values(|e: (&'static str, u32)| e.1) == process_numbers(arch),
            listed@ == metadata_numbers(arch) + process_numbers(arch).take(j as int),
        decreases spawns.len() - j,
    {
        listed.push(spawns[j].1);
        assert(listed@ =~= metadata_numbers(arch) + process_numbers(arch).take(j + 1));
        j = j + 1;
    }
    assert(process_numbers(arch).take(j as int) =~= process_numbers(arch));
    assert(listed@ =~= refused(arch));
    let n = listed.len();
    assert(n <= 25);
    let refuse: usize = 10 + n;
    let mut program: Vec<SockFilter> = Vec::new();
    program.push(SockFilter { code: BPF_LD_W_ABS, jt: 0, jf: 0, k: SECCOMP_DATA_ARCH });
    program.push(SockFilter { code: BPF_JEQ_K, jt: 1, jf: 0, k: audit_arch_native(arch) });
    program.push(SockFilter { code: BPF_RET_K, jt: 0, jf: 0, k: SECCOMP_RET_KILL_PROCESS });
    program.push(SockFilter { code: BPF_LD_W_ABS, jt: 0, jf: 0, k: SECCOMP_DATA_NR });
    program.push(SockFilter { code: BPF_JGE_K, jt: skip_of(4, refuse), jf: 0, k: X32_SYSCALL_BIT });
    let ghost head = program@;
    let mut k: usize = 0;
    assert(program@ =~= head + listed_checks(listed@, 0).take(0));
    while k < n
        invariant
            k <= n <= 25,
            n == listed.len(),
            refuse == 10 + n,
            listed@ == refused(arch),
            head.len() == 5,
            program@ == head + listed_checks(listed@, 0).take(k as int),
        decreases n - k,
    {
        proof {
            lemma_listed_at(listed@, 0, k as nat);
        }
        program.push(SockFilter { code: BPF_JEQ_K, jt: skip_of(5 + k, refuse), jf: 0, k: listed[k] });
        assert(program@ =~= head + listed_checks(listed@, 0).take(k + 1));
        k = k + 1;
    }
    proof {
        lemma_listed_len(listed@, 0);
    }
    assert(listed_checks(listed@, 0).take(n as int) =~= listed_checks(listed@, 0));
    program.push(SockFilter { code: BPF_JEQ_K, jt: skip_of(5 + n, 11 + n), jf: 0, k: SYS_CLONE3 });
    program.push(SockFilter { code: BPF_JEQ_K, jt: 0, jf: skip_of(6 + n, 9 + n), k: sys_clone(arch) });
    program.push(SockFilter { code: BPF_LD_W_ABS, jt: 0, jf: 0, k: SECCOMP_DATA_ARG0_LOW });
    program.push(SockFilter { code: BPF_JSET_K, jt: skip_of(8 + n, 9 + n), jf: skip_of(8 + n, 10 + n), k: CLONE_THREAD });
    program.push(SockFilter { code: BPF_RET_K, jt: 0, jf: 0, k: SECCOMP_RET_ALLOW });
    program.push(SockFilter { code: BPF_RET_K, jt: 0, jf: 0, k: SECCOMP_RET_ERRNO | EPERM });
    program.push(SockFilter { code: BPF_RET_K, jt: 0, jf: 0, k: SECCOMP_RET_ERRNO | ENOSYS });
    assert(program@ =~= filter_program(arch));
    program
}

proof fn lemma_listed_len(rf: Seq<u32>, i: nat)
    ensures
        listed_checks(rf, i).len() == (if i >= rf.len() {
            0
        } else {
            rf.len() - i
        }),
    decreases rf.len() - i,
{
    if i < rf.len() {
        lemma_listed_len(rf, i + 1);
    }
}

proof fn lemma_listed_at(rf: Seq<u32>, i: nat, k: nat)
    requires
        i <= k < rf.len(),
    ensures
        listed_checks(rf, i).len() == rf.len() - i,
        listed_checks(rf, i)[k - i] == op(BPF_JEQ_K, skip(5 + k, 10 + rf.len()), 0, rf[k as int]),
    decreases k - i,
{
    lemma_listed_len(rf, i);
    if i < k {
        lemma_listed_at(rf, i + 1, k);
    }
}

/// The Landlock ABI a worker runs under, when it can deny a truncation; an older kernel gets no worker.
pub fn usable_abi(abi: i64) -> (r: Option<i64>)
    ensures
        r == (if abi >= LANDLOCK_TRUNCATE_ABI {
            Some(abi)
        } else {
            None
        }),
{
    if abi >= LANDLOCK_TRUNCATE_ABI {
        Some(abi)
    } else {
        None
    }
}

/// The ruleset a child restricts itself to: every write right handled, and from ABI 6 signals scoped to
/// its own domain; before that there is no signal scope.
pub fn ruleset(abi: i64) -> (r: (u64, u64, u64))
    ensures
        r == (LANDLOCK_WRITE_RIGHTS, 0u64, if abi >= LANDLOCK_SCOPE_SIGNAL_ABI {
            LANDLOCK_SCOPE_SIGNAL
        } else {
            0u64
        }),
{
    let scoped: u64 = if abi >= LANDLOCK_SCOPE_SIGNAL_ABI {
        LANDLOCK_SCOPE_SIGNAL
    } else {
        0
    };
    (LANDLOCK_WRITE_RIGHTS, 0, scoped)
}

/// A request as the worker reads it: a size within 1..=MAX_SIZE from four little-endian bytes, and the
/// film-strip flag; anything else is not started.
pub open spec fn request(payload: Seq<u8>) -> Option<(u32, bool)> {
    let size: int = if payload.len() == REQUEST_BYTES {
        payload[0] + 256 * payload[1] + 65536 * payload[2] + 16777216 * payload[3]
    } else {
        0
    };
    if size == 0 || size > MAX_SIZE {
        None
    } else {
        Some((size as u32, payload[4] != 0))
    }
}

/// Sample request: [0, 1, 0, 0, 1], size 256 with the film strip on.
pub fn request_of(payload: &[u8]) -> (r: Option<(u32, bool)>)
    ensures
        r == request(payload@),
{
    if payload.len() != REQUEST_BYTES {
        return None;
    }
    if payload[3] != 0 || payload[2] != 0 {
        return None;
    }
    let size: u32 = payload[0] as u32 + 256 * (payload[1] as u32);
    if size == 0 || size > MAX_SIZE {
        return None;
    }
    Some((size, payload[4] != 0))
}

/// The verdict of a child: not started when it could not be reaped or failed this machine; a success
/// only for a clean exit before its deadline; a failure of the file otherwise, a signal included.
pub open spec fn verdict_of_end(reaped: bool, code: Option<i32>, past_deadline: bool) -> u8 {
    if !reaped {
        NOT_STARTED
    } else {
        match code {
            Some(c) => if c == CHILD_OK && !past_deadline {
                SUCCEEDED
            } else if c == CHILD_MACHINE {
                NOT_STARTED
            } else {
                FAILED
            },
            None => FAILED,
        }
    }
}

/// `code` is the exit code when the child exited, None when a signal ended it.
pub fn job_verdict(reaped: bool, code: Option<i32>, past_deadline: bool) -> (r: u8)
    ensures
        r == verdict_of_end(reaped, code, past_deadline),
{
    if !reaped {
        return NOT_STARTED;
    }
    match code {
        Some(c) => if c == CHILD_OK && !past_deadline {
            SUCCEEDED
        } else if c == CHILD_MACHINE {
            NOT_STARTED
        } else {
            FAILED
        },
        None => FAILED,
    }
}

proof fn lemma_program_shape(arch: Arch)
    ensures
        refused(arch).len() <= 25,
        filter_program(arch).len() == refused(arch).len() + 12,
        forall|i: int|
            0 <= i < refused(arch).len() ==> #[trigger] filter_program(arch)[5 + i] == op(
                BPF_JEQ_K,
                skip((5 + i) as nat, 10 + refused(arch).len()),
                0,
                refused(arch)[i],
            ),
{
    let rf = refused(arch);
    let n = rf.len();
    lemma_listed_len(rf, 0);
    assert forall|i: int| 0 <= i < n implies #[trigger] filter_program(arch)[5 + i] == op(
        BPF_JEQ_K,
        skip((5 + i) as nat, 10 + n),
        0,
        rf[i],
    ) by {
        lemma_listed_at(rf, 0, i as nat);
    }
}

proof fn lemma_chain(arch: Arch, i: nat, call_arch: u32, nr: u32, arg0: u32)
    requires
        i <= refused(arch).len(),
    ensures
        run_from(filter_program(arch), (5 + i) as int, nr, call_arch, nr, arg0) == (if refused(arch).subrange(
            i as int,
            refused(arch).len() as int,
        ).contains(nr) {
            Some(SECCOMP_RET_ERRNO | EPERM)
        } else {
            run_from(filter_program(arch), (5 + refused(arch).len()) as int, nr, call_arch, nr, arg0)
        }),
    decreases refused(arch).len() - i,
{
    let rf = refused(arch);
    let n = rf.len();
    let p = filter_program(arch);
    lemma_program_shape(arch);
    if i == n {
        assert(!rf.subrange(i as int, n as int).contains(nr));
    } else {
        let here = (5 + i) as int;
        assert(p[here] == op(BPF_JEQ_K, skip((5 + i) as nat, 10 + n), 0, rf[i as int]));
        let tail = rf.subrange(i as int, n as int);
        let rest = rf.subrange(i + 1int, n as int);
        assert(tail =~= seq![rf[i as int]] + rest);
        if nr == rf[i as int] {
            assert(tail[0] == nr);
            assert(tail.contains(nr));
            assert(skip((5 + i) as nat, 10 + n) == 4 + n - i);
            assert(p[(10 + n) as int] == op(BPF_RET_K, 0, 0, SECCOMP_RET_ERRNO | EPERM));
            assert(run_from(p, (10 + n) as int, nr, call_arch, nr, arg0) == Some(SECCOMP_RET_ERRNO | EPERM));
            assert(run_from(p, here, nr, call_arch, nr, arg0) == run_from(p, (10 + n) as int, nr, call_arch, nr, arg0));
        } else {
            assert(run_from(p, here, nr, call_arch, nr, arg0) == run_from(p, here + 1, nr, call_arch, nr, arg0));
            lemma_chain(arch, i + 1, call_arch, nr, arg0);
            assert(tail.contains(nr) == rest.contains(nr)) by {
                if tail.contains(nr) {
                    let k = choose|k: int| 0 <= k < tail.len() && tail[k] == nr;
                    assert(k != 0);
                    assert(rest[k - 1] == nr);
                }
                if rest.contains(nr) {
                    let k = choose|k: int| 0 <= k < rest.len() && rest[k] == nr;
                    assert(tail[k + 1] == nr);
                }
            }
        }
    }
}

/// The filter answers every call as intended: a foreign arch is killed; an x32 call, a call that
/// changes a file's metadata or starts a process, or a clone that is not a thread is refused with
/// EPERM; clone3 answers ENOSYS; a thread starts and every other call runs.
pub proof fn the_filter_answers_every_call(arch: Arch, call_arch: u32, nr: u32, arg0: u32)
    ensures
        run_from(filter_program(arch), 0, 0, call_arch, nr, arg0) == Some(intended(arch, call_arch, nr, arg0)),
{
    let rf = refused(arch);
    let n = rf.len();
    let p = filter_program(arch);
    lemma_program_shape(arch);
    assert(p[0] == op(BPF_LD_W_ABS, 0, 0, SECCOMP_DATA_ARCH));
    assert(p[1] == op(BPF_JEQ_K, 1, 0, native(arch)));
    assert(p[2] == op(BPF_RET_K, 0, 0, SECCOMP_RET_KILL_PROCESS));
    assert(p[3] == op(BPF_LD_W_ABS, 0, 0, SECCOMP_DATA_NR));
    assert(p[4] == op(BPF_JGE_K, skip(4, 10 + n), 0, X32_SYSCALL_BIT));
    assert(p[(5 + n) as int] == op(BPF_JEQ_K, skip(5 + n, 11 + n), 0, SYS_CLONE3));
    assert(p[(6 + n) as int] == op(BPF_JEQ_K, 0, skip(6 + n, 9 + n), clone_number(arch)));
    assert(p[(7 + n) as int] == op(BPF_LD_W_ABS, 0, 0, SECCOMP_DATA_ARG0_LOW));
    assert(p[(8 + n) as int] == op(BPF_JSET_K, skip(8 + n, 9 + n), skip(8 + n, 10 + n), CLONE_THREAD));
    assert(p[(9 + n) as int] == op(BPF_RET_K, 0, 0, SECCOMP_RET_ALLOW));
    assert(p[(10 + n) as int] == op(BPF_RET_K, 0, 0, SECCOMP_RET_ERRNO | EPERM));
    assert(p[(11 + n) as int] == op(BPF_RET_K, 0, 0, SECCOMP_RET_ERRNO | ENOSYS));
    assert(skip(4, 10 + n) == 5 + n);
    assert(skip(5 + n, 11 + n) == 5);
    assert(skip(6 + n, 9 + n) == 2);
    assert(skip(8 + n, 9 + n) == 0);
    assert(skip(8 + n, 10 + n) == 1);
    let m = n as int;
    assert(run_from(p, 0, 0, call_arch, nr, arg0) == run_from(p, 1, call_arch, call_arch, nr, arg0));
    if call_arch != native(arch) {
        assert(run_from(p, 1, call_arch, call_arch, nr, arg0) == run_from(p, 2, call_arch, call_arch, nr, arg0));
    } else {
        assert(run_from(p, 1, call_arch, call_arch, nr, arg0) == run_from(p, 3, call_arch, call_arch, nr, arg0));
        assert(run_from(p, 3, call_arch, call_arch, nr, arg0) == run_from(p, 4, nr, call_arch, nr, arg0));
        if nr >= X32_SYSCALL_BIT {
            assert(run_from(p, 4, nr, call_arch, nr, arg0) == run_from(p, 10 + m, nr, call_arch, nr, arg0));
        } else {
            assert(run_from(p, 4, nr, call_arch, nr, arg0) == run_from(p, 5, nr, call_arch, nr, arg0));
            lemma_chain(arch, 0, call_arch, nr, arg0);
            assert(rf.subrange(0, n as int) =~= rf);
            if !rf.contains(nr) {
                after_the_list(arch, call_arch, nr, arg0);
            }
        }
    }
}

/// The checks after the listed calls, for a call of the native arch that none of them lists.
proof fn after_the_list(arch: Arch, call_arch: u32, nr: u32, arg0: u32)
    requires
        call_arch == native(arch),
        nr < X32_SYSCALL_BIT,
        !refused(arch).contains(nr),
    ensures
        run_from(filter_program(arch), (5 + refused(arch).len()) as int, nr, call_arch, nr, arg0) == Some(
            intended(arch, call_arch, nr, arg0),
        ),
{
    let n = refused(arch).len();
    let m = n as int;
    let p = filter_program(arch);
    lemma_program_shape(arch);
    assert(p[(5 + n) as int] == op(BPF_JEQ_K, skip(5 + n, 11 + n), 0, SYS_CLONE3));
    assert(p[(6 + n) as int] == op(BPF_JEQ_K, 0, skip(6 + n, 9 + n), clone_number(arch)));
    assert(p[(7 + n) as int] == op(BPF_LD_W_ABS, 0, 0, SECCOMP_DATA_ARG0_LOW));
    assert(p[(8 + n) as int] == op(BPF_JSET_K, skip(8 + n, 9 + n), skip(8 + n, 10 + n), CLONE_THREAD));
    assert(p[(9 + n) as int] == op(BPF_RET_K, 0, 0, SECCOMP_RET_ALLOW));
    assert(p[(10 + n) as int] == op(BPF_RET_K, 0, 0, SECCOMP_RET_ERRNO | EPERM));
    assert(p[(11 + n) as int] == op(BPF_RET_K, 0, 0, SECCOMP_RET_ERRNO | ENOSYS));
    assert(skip(5 + n, 11 + n) == 5);
    assert(skip(6 + n, 9 + n) == 2);
    assert(skip(8 + n, 9 + n) == 0);
    assert(skip(8 + n, 10 + n) == 1);
    if nr == SYS_CLONE3 {
        assert(run_from(p, 5 + m, nr, call_arch, nr, arg0) == run_from(p, 11 + m, nr, call_arch, nr, arg0));
    } else {
        assert(run_from(p, 5 + m, nr, call_arch, nr, arg0) == run_from(p, 6 + m, nr, call_arch, nr, arg0));
        if nr != clone_number(arch) {
            assert(run_from(p, 6 + m, nr, call_arch, nr, arg0) == run_from(p, 9 + m, nr, call_arch, nr, arg0));
        } else {
            assert(run_from(p, 6 + m, nr, call_arch, nr, arg0) == run_from(p, 7 + m, nr, call_arch, nr, arg0));
            assert(run_from(p, 7 + m, nr, call_arch, nr, arg0) == run_from(p, 8 + m, arg0, call_arch, nr, arg0));
            if arg0 & CLONE_THREAD != 0 {
                assert(run_from(p, 8 + m, arg0, call_arch, nr, arg0) == run_from(p, 9 + m, arg0, call_arch, nr, arg0));
            } else {
                assert(run_from(p, 8 + m, arg0, call_arch, nr, arg0) == run_from(p, 10 + m, arg0, call_arch, nr, arg0));
            }
        }
    }
}

/// The ruleset denies a truncation, which a job could otherwise do to its own input, and never denies
/// a read: executing, reading a file and reading a folder are bits 0, 2 and 3.
pub proof fn the_ruleset_denies_truncation_and_never_a_read()
    ensures
        LANDLOCK_WRITE_RIGHTS & LANDLOCK_TRUNCATE_V3 != 0,
        LANDLOCK_WRITE_RIGHTS & ((1u64 << 0u64) | (1u64 << 2u64) | (1u64 << 3u64)) == 0,
{
    assert(((1u64 << 1u64) | (0x1ffu64 << 4u64) | (1u64 << 13u64) | (1u64 << 14u64)) & (1u64 << 14u64) != 0)
        by (bit_vector);
    assert(((1u64 << 1u64) | (0x1ffu64 << 4u64) | (1u64 << 13u64) | (1u64 << 14u64)) & ((1u64 << 0u64) | (1u64
        << 2u64) | (1u64 << 3u64)) == 0) by (bit_vector);
}


/// The least of the times left, in milliseconds.
pub open spec fn least(left: Seq<u128>) -> int
    decreases left.len(),
{
    if left.len() == 0 {
        0
    } else if left.len() == 1 {
        left[0] as int
    } else {
        let rest = least(left.drop_last());
        if (left.last() as int) < rest {
            left.last() as int
        } else {
            rest
        }
    }
}

/// poll(2)'s timeout: -1 to wait for a request when no child is running, and otherwise the time to the
/// nearest deadline rounded up by one millisecond, so a deadline is never polled a moment early,
/// within what a c_int holds.
pub open spec fn timeout_of(left: Seq<u128>) -> i32 {
    if left.len() == 0 {
        -1i32
    } else if least(left) + 1 > i32::MAX {
        i32::MAX
    } else {
        (least(left) + 1) as i32
    }
}

/// `left` holds each running child's time to its deadline, in milliseconds.
pub fn poll_timeout(left: &[u128]) -> (r: i32)
    ensures
        r == timeout_of(left@),
{
    if left.len() == 0 {
        return -1;
    }
    let mut m: u128 = left[0];
    let mut k: usize = 1;
    assert(left@.take(1) =~= seq![left@[0]]);
    while k < left.len()
        invariant
            1 <= k <= left.len(),
            m as int == least(left@.take(k as int)),
        decreases left.len() - k,
    {
        assert(left@.take(k + 1).drop_last() =~= left@.take(k as int));
        assert(left@.take(k + 1).last() == left@[k as int]);
        if left[k] < m {
            m = left[k];
        }
        k = k + 1;
    }
    assert(left@.take(left.len() as int) =~= left@);
    if m >= i32::MAX as u128 {
        i32::MAX
    } else {
        (m + 1) as i32
    }
}

/// What one sweep does with a running child: finish it when poll says it ended, kill and finish it
/// when its deadline has passed, and keep it otherwise. Some(past_deadline) finishes it.
pub open spec fn fate(ended: bool, past_deadline: bool) -> Option<bool> {
    if ended {
        Some(false)
    } else if past_deadline {
        Some(true)
    } else {
        None
    }
}

/// Children first, so a verdict is never held behind a request: each running child's fate, in order.
pub fn sweep(ended: &[bool], past_deadline: &[bool]) -> (r: Vec<Option<bool>>)
    requires
        ended.len() == past_deadline.len(),
    ensures
        r@.len() == ended@.len(),
        forall|k: int| 0 <= k < r@.len() ==> r@[k] == fate(ended@[k], past_deadline@[k]),
{
    let mut r: Vec<Option<bool>> = Vec::new();
    let mut k: usize = 0;
    while k < ended.len()
        invariant
            k <= ended.len(),
            ended.len() == past_deadline.len(),
            r@.len() == k,
            forall|j: int| 0 <= j < k ==> r@[j] == fate(ended@[j], past_deadline@[j]),
        decreases ended.len() - k,
    {
        let f = if ended[k] {
            Some(false)
        } else if past_deadline[k] {
            Some(true)
        } else {
            None
        };
        r.push(f);
        k = k + 1;
    }
    r
}

} // verus!
