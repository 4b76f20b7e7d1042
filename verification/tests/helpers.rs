//! Paths, log messages, and what is decided about starting a program.

use elfloader::app::{
    check_initrd_path, exit_status, gather_arguments, needs_search, next, resolve,
    split_command_line, Action, Reply,
};
use elfloader::auxv::StackLayout;
use elfloader::binfmt::{
    self, arguments, load_status, program_name, stack_below, HANDLED, NOT_HANDLED,
};
use elfloader::elf::{ImageSource, EM_AARCH64, EM_X86_64};
use elfloader::err::{from_c, Error, E2BIG, EINVAL, ENOENT, ENOEXEC, ENOMEM};
use elfloader::loader::{MapSrc, Where};
use elfloader::log::{self, Buf, LVL_DEBUG, LVL_ERR, LVL_INFO, LVL_WARN, MSG_MAX};
use elfloader::num::{align_down, align_up, is_power_of_two, u16le, u32le, u64le};
use elfloader::rt::CrashBuf;
use elfloader::sys::{
    alloc_result, environment, file_size, map_request, map_result, open_result, page_size,
    random_bytes, AppStack, CString, Cfg, MemImage, ReadState, Search, FIXED_SEED, MAP_ANON,
    MAP_FILE,
};
use elfloader::util::{basename, is_bare_name, path_candidates, Show};

#[test]
fn basename_handles_the_awkward_cases() {
    assert_eq!(basename(b"/usr/bin/node"), b"node");
    assert_eq!(basename(b"node"), b"node");
    assert_eq!(basename(b"/usr/bin/"), b"bin");
    assert_eq!(basename(b"/usr/bin///"), b"bin");
    assert_eq!(basename(b"/"), b"");
    assert_eq!(basename(b"///"), b"");
    assert_eq!(basename(b""), b"");
    assert_eq!(basename(b"./x"), b"x");
}

#[test]
fn basename_does_not_modify_its_input() {
    let p = b"/usr/bin/".to_vec();
    let before = p.clone();
    let _ = basename(&p);
    assert_eq!(p, before);
}

#[test]
fn only_bare_names_are_searched() {
    assert!(is_bare_name(b"node"));
    assert!(!is_bare_name(b"/usr/bin/node"));
    assert!(!is_bare_name(b"./node"));
    assert!(!is_bare_name(b"../node"));
    assert!(!is_bare_name(b"bin/node"));
    assert!(!is_bare_name(b""));
}

#[test]
fn candidates_cover_each_element_in_order() {
    let got: Vec<Vec<u8>> = path_candidates(b"node", b"/usr/local/bin:/usr/bin:/bin");
    assert_eq!(
        got,
        vec![
            b"/usr/local/bin/node".to_vec(),
            b"/usr/bin/node".to_vec(),
            b"/bin/node".to_vec()
        ]
    );
}

#[test]
fn trailing_slashes_do_not_double_up() {
    let got: Vec<Vec<u8>> = path_candidates(b"node", b"/usr/bin/");
    assert_eq!(got, vec![b"/usr/bin/node".to_vec()]);
}

#[test]
fn an_empty_element_means_the_current_directory() {
    let got: Vec<Vec<u8>> = path_candidates(b"node", b"/bin::/usr/bin");
    assert_eq!(
        got,
        vec![
            b"/bin/node".to_vec(),
            b"./node".to_vec(),
            b"/usr/bin/node".to_vec()
        ]
    );
}

#[test]
fn show_escapes_non_printable_bytes() {
    assert_eq!(Show(b"/usr/bin\x01\xff").to_string(), "/usr/bin??");
}

#[test]
fn truncates_instead_of_overflowing() {
    let mut b = Buf::new();
    let long: String = "x".repeat(MSG_MAX * 2);
    b.write_str(&long);
    let msg = b.finish();
    assert!(msg.len() <= MSG_MAX);
    assert_eq!(&msg[msg.len() - 4..], b"...\0");
}

#[test]
fn short_messages_are_nul_terminated_verbatim() {
    let mut b = Buf::new();
    b.write_str(&format!("hello {}", 42));
    assert_eq!(b.finish(), b"hello 42\0");
}

#[test]
fn names_without_a_directory_are_their_own_basename() {
    for p in [b"node".as_slice(), b"a/b//c/".as_slice(), b"/x/..".as_slice()] {
        let b = basename(p);
        assert_eq!(basename(b), b);
        assert!(!b.contains(&b'/'));
    }
}

#[test]
fn an_empty_search_path_is_the_current_directory() {
    assert_eq!(path_candidates(b"node", b""), vec![b"./node".to_vec()]);
    assert_eq!(
        path_candidates(b"node", b":"),
        vec![b"./node".to_vec(), b"./node".to_vec()]
    );
}

#[test]
fn printable_bytes_are_shown_as_they_are() {
    assert_eq!(Show(b" ~\x1f\x7f").to_string(), " ~??");
    assert_eq!(Show(b"").to_string(), "");
}

#[test]
fn rounding_is_to_powers_of_two() {
    assert_eq!(align_down(0x1fff, 0x1000), 0x1000);
    assert_eq!(align_up(0x1001, 0x1000), Some(0x2000));
    assert_eq!(align_up(0x1000, 0x1000), Some(0x1000));
    assert_eq!(align_up(u64::MAX - 0xfff, 0x1000), Some(u64::MAX - 0xfff));
    assert_eq!(align_up(u64::MAX - 0xffe, 0x1000), None);
    assert!(is_power_of_two(1) && is_power_of_two(1 << 63));
    assert!(!is_power_of_two(0) && !is_power_of_two(3));
}

#[test]
fn numbers_are_read_least_significant_byte_first() {
    let b = [0u8, 0x11, 0x22, 0x33, 0x44, 0x55, 0x66, 0x77, 0x88];
    assert_eq!(u16le(&b, 1), 0x2211);
    assert_eq!(u32le(&b, 1), 0x44332211);
    assert_eq!(u64le(&b, 1), 0x8877665544332211);
}

#[test]
fn errors_cross_over_to_c_and_back() {
    assert_eq!(Error(ENOEXEC).as_neg(), -8);
    assert_eq!(from_c(-8), Err(Error(ENOEXEC)));
    assert_eq!(from_c(0), Ok(0));
    assert_eq!(from_c(7), Ok(7));
    assert_eq!(Error(ENOENT).as_str(), "no such file or directory");
    assert_eq!(Error(12345).as_str(), "unknown error");
}

#[test]
fn messages_carry_their_level() {
    for (mut r, lvl) in [
        (log::err("hi"), LVL_ERR),
        (log::warn("hi"), LVL_WARN),
        (log::info("hi"), LVL_INFO),
        (log::debug("hi"), LVL_DEBUG),
    ] {
        assert_eq!(r.lvl, lvl);
        assert_eq!(r.buf.finish(), b"hi\0");
    }
    assert_eq!((LVL_ERR, LVL_WARN, LVL_INFO, LVL_DEBUG), (0, 1, 2, 3));
}

#[test]
fn messages_are_cut_at_the_last_byte_that_fits() {
    // 511 bytes and a terminator fit; one more does not.
    let mut b = Buf::new();
    b.write_str(&"x".repeat(500));
    b.write_str(&"y".repeat(11));
    let msg = b.finish();
    assert_eq!(msg.len(), 512);
    assert_eq!(&msg[499..502], b"xyy");
    assert_eq!(msg[511], 0);
    let mut b = Buf::new();
    b.write_str(&"x".repeat(500));
    b.write_str(&"y".repeat(12));
    let msg = b.finish();
    assert_eq!(msg.len(), 511);
    assert_eq!(&msg[506..], b"y...\0");
    assert_eq!((b.n, b.truncated), (511, true));
    assert_eq!(&b.b[506..511], b"y...\0");
    let mut b = Buf::new();
    b.write_str("hi");
    assert_eq!(b.finish(), b"hi\0");
    assert_eq!((b.n, b.truncated), (3, false));
    assert_eq!(&b.b[..3], b"hi\0");
}

#[test]
fn a_crash_is_reported_with_what_fits() {
    let mut b = CrashBuf::new();
    b.write_str("elfloader panic: ");
    b.write_str("oops");
    assert_eq!(b.finish(), b"elfloader panic: oops\0");
    assert_eq!(b.n, 21);
    assert_eq!(&b.b[..22], b"elfloader panic: oops\0");
    let mut b = CrashBuf::new();
    b.write_str(&"x".repeat(300));
    b.write_str("more");
    let msg = b.finish();
    assert_eq!(msg.len(), 256);
    assert_eq!(&msg[254..], b"x\0");
}

fn config() -> Cfg {
    Cfg {
        stack_len: 0x10000,
        page_size: 4096,
        uid: 1,
        gid: 2,
        have_vfs: true,
        have_mmap: true,
        have_vmem: true,
        have_environ: true,
        have_random: true,
        have_pthread: false,
        vfsexec: true,
        customappname: true,
        envpath: true,
        envpwd: false,
        execbit: false,
        debug: false,
        vfsexec_path: b"/bin/init".to_vec(),
        vdso_addr: 0,
    }
}

#[test]
fn strings_for_c_are_terminated_and_hold_no_nul() {
    let c = CString::new(b"/bin/sh").unwrap();
    assert_eq!(c.as_bytes_with_nul(), b"/bin/sh\0");
    assert_eq!(CString::new(b"").unwrap().as_bytes_with_nul(), b"\0");
    assert_eq!(CString::new(b"a\0b").err(), Some(Error(EINVAL)));
    assert_eq!(CString::new_in(b"ab", None).err(), Some(Error(ENOMEM)));
    assert_eq!(CString::new_in(b"\0", None).err(), Some(Error(EINVAL)));
    assert_eq!(page_size(&config()), 4096);
}

#[test]
fn mappings_are_asked_for_the_way_the_kernel_wants() {
    let q = map_request(Where::Anywhere, MapSrc::Anon);
    assert_eq!((q.addr, q.replace, q.kind, q.fd, q.off), (0, 0, MAP_ANON, -1, 0));
    let q = map_request(Where::Hint(0x1000), MapSrc::Anon);
    assert_eq!((q.addr, q.replace), (0x1000, 0));
    let q = map_request(Where::Exact(0x2000), MapSrc::File { fd: 3, off: 0x40 });
    assert_eq!((q.addr, q.replace, q.kind, q.fd, q.off), (0x2000, 1, MAP_FILE, 3, 0x40));
    assert_eq!(map_result(0x5000, 0), Ok(0x5000));
    assert_eq!(map_result(0, 12), Err(Error(ENOMEM)));
    assert_eq!(map_result(0, -12), Err(Error(ENOMEM)));
    assert_eq!(alloc_result(0), Err(Error(ENOMEM)));
    assert_eq!(alloc_result(8), Ok(8));
    assert_eq!(open_result(3), Ok(3));
    assert_eq!(open_result(-2), Err(Error(ENOENT)));
    assert_eq!(file_size(10), Some(10));
    assert_eq!(file_size(-1), None);
}

#[test]
fn a_read_goes_on_until_everything_is_there() {
    let mut r = ReadState::new(100, 10);
    assert_eq!(r.want(), Some((10, 100)));
    assert_eq!(r.got(4), Ok(()));
    assert_eq!(r.want(), Some((6, 104)));
    assert_eq!(r.got(6), Ok(()));
    assert_eq!(r.want(), None);
    let mut r = ReadState::new(0, 10);
    assert_eq!(r.got(0), Err(Error(ENOEXEC)));
    assert_eq!(r.got(-5), Err(Error(5)));
    assert_eq!(r.done, 0);
    assert_eq!(ReadState::new(7, 0).want(), None);
    // A read may end at the very last offset.
    let mut r = ReadState::new(u64::MAX, 1);
    assert_eq!(r.want(), Some((1, -1)));
    assert_eq!(r.got(1), Ok(()));
    assert_eq!(r.want(), None);
}

#[test]
fn an_image_in_memory_is_read_within_its_bounds() {
    let mut m = MemImage::new(b"0123456789");
    assert_eq!(m.size(), Some(10));
    let mut buf = [0u8; 4];
    assert_eq!(m.read_exact_at(6, &mut buf), Ok(()));
    assert_eq!(&buf, b"6789");
    assert_eq!(m.read_exact_at(7, &mut buf), Err(Error(ENOEXEC)));
    assert_eq!(m.read_exact_at(u64::MAX, &mut buf), Err(Error(ENOEXEC)));
}

#[test]
fn writes_outside_the_stack_are_refused() {
    let s = AppStack::new(0x1000, 0x2000);
    assert_eq!(s.check(0x1000, 0x1000), Ok(()));
    assert_eq!(s.check(0xfff, 1), Err(Error(E2BIG)));
    assert_eq!(s.check(0x1fff, 2), Err(Error(E2BIG)));
    assert_eq!(s.check(u64::MAX, 2), Err(Error(E2BIG)));
}

#[test]
fn randomness_falls_back_to_a_fixed_seed() {
    let mut c = config();
    let b = [7u8; 16];
    assert_eq!(random_bytes(&c, 0, b), b);
    assert_eq!(random_bytes(&c, -5, b), FIXED_SEED);
    c.have_random = false;
    assert_eq!(random_bytes(&c, 0, b), FIXED_SEED);
    assert_eq!(&FIXED_SEED[..6], &[0xb0, 0xb0, 0, 0, 0x0d, 0xf0]);
}

#[test]
fn the_system_describes_itself() {
    let mut c = config();
    let e = environment(&c, b"x86_64", b"/bin/x", [9; 16], (3, 4), EM_X86_64);
    assert_eq!((e.page_size, e.uid, e.gid, e.hwcap), (4096, 1, 2, (3, 4)));
    assert_eq!((e.platform, e.execfn), (b"x86_64".as_slice(), b"/bin/x".as_slice()));
    assert_eq!((e.random, e.sysinfo_ehdr), ([9; 16], None));
    assert_eq!(e.machine, EM_X86_64);
    c.vdso_addr = 0x1234;
    let e = environment(&c, b"", b"", [0; 16], (0, 0), EM_AARCH64);
    assert_eq!(e.sysinfo_ehdr, Some(0x1234));
    assert_eq!(e.machine, EM_AARCH64);
}

#[test]
fn a_search_stops_at_the_first_hit() {
    let mut s = Search::new(b"node", b"/a:/b:/c");
    assert_eq!(s.next_place(), Some(&b"/a/node".to_vec()));
    assert_eq!(s.looked(-2), None);
    assert_eq!(s.next_place(), Some(&b"/b/node".to_vec()));
    assert_eq!(s.looked(0), Some(b"/b/node".to_vec()));
    let mut s = Search::new(b"node", b"/a");
    assert_eq!(s.looked(1), None);
    assert_eq!(s.next_place(), None);
    // A path is not searched for, and a place that C cannot name is skipped.
    assert_eq!(Search::new(b"./node", b"/a").next_place(), None);
    let s = Search::new(b"node", b"/a\0b:/c");
    assert_eq!(s.places, vec![b"/c/node".to_vec()]);
}

#[test]
fn the_command_line_names_the_program() {
    let args: &[&[u8]] = &[b"kernel", b"/usr/bin/node", b"-v"];
    let mut c = config();
    let t = split_command_line(args, &c).unwrap();
    assert_eq!(t.path, b"/usr/bin/node");
    assert_eq!(t.progname, b"node");
    assert_eq!(t.rest, vec![b"-v".as_slice()]);

    c.vfsexec = false;
    let t = split_command_line(args, &c).unwrap();
    assert_eq!(t.path, b"<initrd>");
    assert_eq!(t.progname, b"/usr/bin/node");
    assert_eq!(t.rest, vec![b"-v".as_slice()]);

    c.customappname = false;
    let t = split_command_line(args, &c).unwrap();
    assert_eq!(t.path, b"<initrd>");
    assert_eq!(t.progname, b"kernel");
    assert_eq!(t.rest.len(), 2);

    c.vfsexec = true;
    let t = split_command_line(args, &c).unwrap();
    assert_eq!(t.path, b"/bin/init");
    assert_eq!(t.progname, b"init");
    assert_eq!(t.rest.len(), 2);
}

#[test]
fn a_command_line_without_a_program_is_refused() {
    let mut c = config();
    assert_eq!(split_command_line(&[b"kernel"], &c).err(), Some(Error(EINVAL)));
    c.customappname = false;
    assert_eq!(split_command_line(&[], &c).err(), Some(Error(EINVAL)));
    c.vfsexec_path = Vec::new();
    assert_eq!(split_command_line(&[b"kernel"], &c).err(), Some(Error(EINVAL)));
}

#[test]
fn bare_names_are_resolved_when_something_is_found() {
    let mut c = config();
    let mut t = split_command_line(&[b"k", b"node"], &c).unwrap();
    assert!(needs_search(&t, &c));
    resolve(&mut t, None);
    assert_eq!(t.path, b"node");
    resolve(&mut t, Some(b"/bin/node".to_vec()));
    assert_eq!(t.path, b"/bin/node");
    assert_eq!(t.progname, b"node");
    assert!(!needs_search(&t, &c));
    c.envpath = false;
    let t = split_command_line(&[b"k", b"node"], &c).unwrap();
    assert!(!needs_search(&t, &c));
}

#[test]
fn an_initrd_serves_one_image_only() {
    assert_eq!(check_initrd_path(b"<initrd>"), Ok(()));
    assert_eq!(check_initrd_path(b"<initrd!"), Err(Error(ENOENT)));
    assert_eq!(check_initrd_path(b"/lib/ld.so"), Err(Error(ENOENT)));
}

#[test]
fn arguments_start_with_the_program_name() {
    let c = config();
    let t = split_command_line(&[b"k", b"/bin/node", b"a", b"b"], &c).unwrap();
    let argv = gather_arguments(&t, Vec::new());
    assert_eq!(argv, vec![b"node".as_slice(), b"a".as_slice(), b"b".as_slice()]);
}

fn failure(a: Action) -> Option<(Error, bool, bool)> {
    match a {
        Action::Fail {
            error,
            unload,
            release,
        } => Some((error, unload, release)),
        _ => None,
    }
}

#[test]
fn a_start_goes_from_thread_to_schedule() {
    let layout = StackLayout {
        sp: 0x1000,
        argc_at: 0x1000,
        low_water: 0x1000,
    };
    let mut c = config();
    assert!(matches!(next(&c, Reply::Thread(true)), Action::LoadFile));
    c.envpwd = true;
    assert!(matches!(next(&c, Reply::Thread(true)), Action::ReadPwd));
    assert!(matches!(next(&c, Reply::Pwd(true)), Action::Chdir));
    assert!(matches!(next(&c, Reply::Pwd(false)), Action::LoadFile));
    assert!(matches!(next(&c, Reply::Chdir(Ok(()))), Action::LoadFile));
    c.vfsexec = false;
    assert!(matches!(next(&c, Reply::Chdir(Ok(()))), Action::FindInitrd));
    let found = Reply::Initrd {
        rc: 0,
        base: 8,
        len: 9,
    };
    assert!(matches!(
        next(&c, found),
        Action::LoadInitrd { base: 8, len: 9 }
    ));
    assert!(matches!(
        next(&c, Reply::Loaded(Ok(()))),
        Action::InspectStack
    ));
    assert!(matches!(
        next(&c, Reply::Stack { lo: 1, hi: 2 }),
        Action::GatherArguments
    ));
    assert!(matches!(next(&c, Reply::Arguments(true)), Action::BuildStack));
    assert!(matches!(
        next(&c, Reply::Built(Ok(layout))),
        Action::Start { sp: 0x1000 }
    ));
    assert!(matches!(next(&c, Reply::Started), Action::Schedule));
    c.have_pthread = true;
    assert!(matches!(next(&c, Reply::Started), Action::MakePthread));
    assert!(matches!(next(&c, Reply::Pthread(0)), Action::Schedule));
    assert!(matches!(next(&c, Reply::Scheduled(0)), Action::Wait));
}

#[test]
fn a_start_that_fails_gives_back_what_it_holds() {
    let c = config();
    let cases = vec![
        (Reply::Thread(false), (Error(ENOMEM), false, false)),
        (Reply::Chdir(Err(Error(ENOENT))), (Error(ENOENT), false, true)),
        (
            Reply::Initrd {
                rc: -1,
                base: 8,
                len: 9,
            },
            (Error(ENOENT), false, true),
        ),
        (
            Reply::Initrd {
                rc: 0,
                base: 0,
                len: 9,
            },
            (Error(ENOENT), false, true),
        ),
        (
            Reply::Initrd {
                rc: 0,
                base: 8,
                len: 0,
            },
            (Error(ENOENT), false, true),
        ),
        (Reply::Loaded(Err(Error(ENOEXEC))), (Error(ENOEXEC), false, true)),
        (Reply::Stack { lo: 2, hi: 2 }, (Error(EINVAL), true, true)),
        (Reply::Arguments(false), (Error(ENOMEM), true, true)),
        (Reply::Built(Err(Error(E2BIG))), (Error(E2BIG), true, true)),
        (Reply::Pthread(-12), (Error(ENOMEM), true, true)),
        (Reply::Scheduled(-22), (Error(EINVAL), true, true)),
    ];
    for (reply, want) in cases {
        assert_eq!(failure(next(&c, reply)), Some(want));
    }
}

#[test]
fn the_exit_status_is_the_errno() {
    assert_eq!(exit_status(Ok(())), 0);
    assert_eq!(exit_status(Err(Error(ENOENT))), 2);
    assert_eq!(exit_status(Err(Error(0))), 1);
}

#[test]
fn only_non_elf_images_are_left_to_other_loaders() {
    assert_eq!(load_status(Ok(HANDLED)), 0);
    assert_eq!(load_status(Err(Error(ENOEXEC))), NOT_HANDLED);
    assert_eq!(load_status(Err(Error(ENOMEM))), -12);
}

#[test]
fn an_exec_has_a_name_and_arguments() {
    assert_eq!(program_name(b"sh", b"/bin/bash"), b"sh");
    assert_eq!(program_name(b"", b"/bin/bash"), b"bash");
    assert_eq!(arguments(&[], b"sh"), vec![b"sh".as_slice()]);
    let given: &[&[u8]] = &[b"x", b"y"];
    assert_eq!(arguments(given, b"sh"), given.to_vec());
}

#[test]
fn an_exec_hands_the_program_over_or_gives_it_back() {
    let layout = StackLayout {
        sp: 0x1000,
        argc_at: 0x1000,
        low_water: 0x1000,
    };
    assert!(matches!(
        binfmt::next(binfmt::Reply::Loaded(Ok(()))),
        binfmt::Action::InspectStack
    ));
    assert!(matches!(
        binfmt::next(binfmt::Reply::Loaded(Err(Error(ENOEXEC)))),
        binfmt::Action::Fail {
            error: Error(ENOEXEC),
            unload: false
        }
    ));
    assert!(matches!(
        binfmt::next(binfmt::Reply::Stack {
            top: 0x3000,
            size: 0x1000
        }),
        binfmt::Action::BuildStack {
            lo: 0x2000,
            hi: 0x3000
        }
    ));
    assert!(matches!(
        binfmt::next(binfmt::Reply::Stack {
            top: 0x3000,
            size: 0x3001
        }),
        binfmt::Action::Fail {
            error: Error(EINVAL),
            unload: true
        }
    ));
    assert!(matches!(
        binfmt::next(binfmt::Reply::Built(Ok(layout))),
        binfmt::Action::HandOver { sp: 0x1000 }
    ));
    assert!(matches!(
        binfmt::next(binfmt::Reply::Built(Err(Error(E2BIG)))),
        binfmt::Action::Fail {
            error: Error(E2BIG),
            unload: true
        }
    ));
    assert!(stack_below(1, 2).is_err());
}
