use lib::thumbworker::{
    audit_arch_native, call_filter, job_verdict, metadata_writes, new_processes, request_of, ruleset, sys_clone,
    usable_abi, Arch, SockFilter, BPF_JEQ_K, BPF_JGE_K, BPF_JSET_K, BPF_LD_W_ABS, BPF_RET_K, CHILD_MACHINE,
    CHILD_OK, CHILD_REFUSED, CLONE_THREAD, ENOSYS, EPERM, FAILED, LANDLOCK_SCOPE_SIGNAL, LANDLOCK_TRUNCATE_V3,
    LANDLOCK_WRITE_RIGHTS, NOT_STARTED, SECCOMP_DATA_ARCH, SECCOMP_DATA_ARG0_LOW, SECCOMP_DATA_NR,
    SECCOMP_RET_ALLOW, SECCOMP_RET_ERRNO, SECCOMP_RET_KILL_PROCESS, SUCCEEDED, X32_SYSCALL_BIT,
};
use std::collections::HashMap;

// Every call a job must never make on x86_64, named independently of the table under test.
const MUST_REFUSE: &[&str] = &[
    "ioctl", "chmod", "fchmod", "chown", "fchown", "lchown", "utime", "setxattr", "lsetxattr", "fsetxattr",
    "removexattr", "lremovexattr", "fremovexattr", "utimes", "fchownat", "futimesat", "fchmodat", "utimensat",
    "io_uring_setup", "fchmodat2", "setxattrat", "removexattrat", "file_setattr", "fork", "vfork",
];

// The newest call the tables name (Linux 6.17); headers without it predate the tables and cannot check them.
const NEWEST_CALL: &str = "file_setattr";

// Headers naming the newest call must name every call, so a name they lack is a typo; older ones leave the newer calls unchecked (Ok(None)).
fn kernel_number(numbers: &HashMap<String, u32>, header: &str, call: &str) -> Result<Option<u32>, String> {
    match numbers.get(call) {
        Some(number) => Ok(Some(*number)),
        None if numbers.contains_key(NEWEST_CALL) => Err(format!("{} has no __NR_{}", header, call)),
        None => Ok(None),
    }
}

// Runs the filter the way the kernel does for one call and returns what it answers, so no call is ever made.
fn verdict_of(program: &[SockFilter], arch: u32, number: u32, first_argument: u32) -> u32 {
    let mut at = 0;
    let mut loaded = 0;
    loop {
        let step = &program[at];
        let here = at;
        let jump = |taken: bool| here + 1 + usize::from(if taken { step.jt } else { step.jf });
        at = match step.code {
            BPF_LD_W_ABS => {
                loaded = match step.k {
                    SECCOMP_DATA_ARCH => arch,
                    SECCOMP_DATA_NR => number,
                    SECCOMP_DATA_ARG0_LOW => first_argument,
                    other => panic!("the filter loads offset {}, which this walk does not model", other),
                };
                here + 1
            }
            BPF_JEQ_K => jump(loaded == step.k),
            BPF_JGE_K => jump(loaded >= step.k),
            BPF_JSET_K => jump(loaded & step.k != 0),
            BPF_RET_K => return step.k,
            other => panic!("the filter uses opcode {:#x}, which this walk does not model", other),
        };
    }
}

#[test]
fn older_headers_leave_newer_calls_unchecked_and_current_ones_fail_a_missing_name() {
    assert!(MUST_REFUSE.contains(&NEWEST_CALL), "the newest call is one the filter must refuse");
    let current: HashMap<String, u32> = [(NEWEST_CALL.to_string(), 1), ("fchmod".to_string(), 2)].into();
    let older: HashMap<String, u32> = [("fchmod".to_string(), 2)].into();
    assert_eq!(kernel_number(&current, "h", "fchmod"), Ok(Some(2)));
    assert_eq!(kernel_number(&older, "h", "fchmod"), Ok(Some(2)), "older headers still check the calls they name");
    assert_eq!(kernel_number(&older, "h", "setxattrat"), Ok(None));
    assert_eq!(kernel_number(&current, "h", "fchmdo"), Err("h has no __NR_fchmdo".to_string()), "a typo against current headers fails");
}

#[test]
fn the_ruleset_denies_truncation_and_never_a_read() {
    assert_ne!(LANDLOCK_WRITE_RIGHTS & LANDLOCK_TRUNCATE_V3, 0, "a job could truncate its input");
    // Execute, read file and read dir are bits 0, 2 and 3, and none of them may ever be denied.
    let reads = (1 << 0) | (1 << 2) | (1 << 3);
    assert_eq!(LANDLOCK_WRITE_RIGHTS & reads, 0);
}

#[test]
fn every_listed_call_is_refused_and_the_rest_run_on_both_arches() {
    for arch in [Arch::X86_64, Arch::Aarch64] {
        let program = call_filter(arch);
        let native = audit_arch_native(arch);
        let refused = SECCOMP_RET_ERRNO | EPERM;
        let mut listed = metadata_writes(arch);
        listed.extend(new_processes(arch));
        for (call, number) in &listed {
            assert_eq!(verdict_of(&program, native, *number, 0), refused, "{} is not refused", call);
        }
        let clone = sys_clone(arch);
        assert_eq!(verdict_of(&program, native, clone, CLONE_THREAD | 0x3d0f00), SECCOMP_RET_ALLOW, "a thread must start");
        assert_eq!(verdict_of(&program, native, clone, 0x1200011), refused, "a forked process must not");
        assert_eq!(verdict_of(&program, native, 435, 0), SECCOMP_RET_ERRNO | ENOSYS);
        assert_eq!(verdict_of(&program, native, 0, 0), SECCOMP_RET_ALLOW, "an ordinary call must run");
        assert_eq!(verdict_of(&program, native, 1 | X32_SYSCALL_BIT, 0), refused, "an x32 call must not");
        assert_eq!(verdict_of(&program, 0x4000_0003, 0, 0), SECCOMP_RET_KILL_PROCESS);
    }
    let x86: Vec<&str> = metadata_writes(Arch::X86_64).iter().chain(new_processes(Arch::X86_64).iter()).map(|(c, _)| *c).collect();
    for call in MUST_REFUSE {
        assert!(x86.contains(call), "{} is not in the table", call);
    }
}

#[test]
fn a_verdict_is_read_from_how_the_child_ended() {
    let cases = [
        (Some(CHILD_OK), false, SUCCEEDED),
        (Some(CHILD_REFUSED), false, FAILED),
        (Some(CHILD_MACHINE), false, NOT_STARTED),
        (None, false, FAILED),
        (Some(CHILD_OK), true, FAILED),
        (None, true, FAILED),
    ];
    for (code, past_deadline, want) in cases {
        assert_eq!(job_verdict(true, code, past_deadline), want, "{:?} {}", code, past_deadline);
    }
    assert_eq!(job_verdict(false, Some(CHILD_OK), false), NOT_STARTED, "a child that could not be reaped judges nothing");
}

#[test]
fn a_request_is_a_bounded_size_and_a_flag() {
    assert_eq!(request_of(&[0, 1, 0, 0, 1]), Some((256, true)));
    assert_eq!(request_of(&[0, 4, 0, 0, 0]), Some((1024, false)));
    assert_eq!(request_of(&[1, 4, 0, 0, 0]), None, "larger than a thumbnail");
    assert_eq!(request_of(&[0, 0, 0, 0, 1]), None, "no size");
    assert_eq!(request_of(&[0, 1, 0, 0]), None, "short");
    assert_eq!(request_of(&[0, 0, 0, 1, 0]), None);
}

#[test]
fn only_a_kernel_that_can_deny_a_truncation_gets_a_worker() {
    assert_eq!(usable_abi(2), None);
    assert_eq!(usable_abi(3), Some(3));
    assert_eq!(ruleset(5).2, 0);
    assert_eq!(ruleset(6), (LANDLOCK_WRITE_RIGHTS, 0, LANDLOCK_SCOPE_SIGNAL));
}

#[test]
fn the_poll_waits_for_a_request_or_wakes_just_after_the_nearest_deadline() {
    assert_eq!(lib::thumbworker::poll_timeout(&[]), -1);
    assert_eq!(lib::thumbworker::poll_timeout(&[250, 40, 900]), 41);
    assert_eq!(lib::thumbworker::poll_timeout(&[0]), 1);
    assert_eq!(lib::thumbworker::poll_timeout(&[u128::MAX, i32::MAX as u128]), i32::MAX);
}

#[test]
fn a_sweep_finishes_ended_children_kills_late_ones_and_keeps_the_rest() {
    let fates = lib::thumbworker::sweep(&[true, false, false, true], &[true, true, false, false]);
    assert_eq!(fates, vec![Some(false), Some(true), None, Some(false)]);
}
