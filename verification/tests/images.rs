//! Loading synthetic images into a model address space, and laying out stacks.
//!
//! The layouts here are traced from real binaries rather than invented:
//! `glibc_arm64_style` has the 64 KiB segment alignment, the inter-segment gap
//! and the `memsz > filesz` data segment of Debian's
//! `aarch64-linux-gnu/libc.so.6`, scaled down so the fixture stays small. That
//! combination, 64 KiB alignment over a 4 KiB page, is exactly what the loader
//! has to get right on arm64.

use elfloader::auxv::{
    build_stack, build_stack_in, check_arg_env_size, AuxvSpec, StackLayout, StackWriter, ARG_MAX,
    AT_BASE, AT_ENTRY, AT_EXECFN, AT_MINSIGSTKSZ, AT_NULL, AT_PAGESZ, AT_PHDR, AT_PHENT, AT_PHNUM,
    AT_PLATFORM, AT_RANDOM, AT_SECURE, AT_CLKTCK, AT_SYSINFO_EHDR,
};
use elfloader::elf::{
    align_up, Ehdr, Image, ImageSource, Phdr, Reject, SliceSource, EHDR_SIZE, EI_ABIVERSION,
    EI_CLASS, EI_DATA, EI_OSABI, EI_VERSION, ELFCLASS64, ELFDATA2LSB, ELFMAG, ELFOSABI_NONE,
    EM_AARCH64, EM_X86_64, ET_DYN, ET_EXEC, EV_CURRENT, PF_R, PF_W, PF_X, PHDR_SIZE, PN_XNUM,
    PT_DYNAMIC, PT_GNU_RELRO, PT_GNU_STACK, PT_INTERP, PT_LOAD, PT_PHDR, PT_TLS,
};
use elfloader::err::{
    Error, E2BIG, EINVAL, EIO, ENOENT, ENOEXEC, ENOMEM, ENOTSUP,
};
use elfloader::layout::{
    plan, plan_into, prot_of, reservation_len, seg_align, Placement, MAX_SEG_ALIGN, PROT_EXEC,
    PROT_NONE, PROT_READ, PROT_WRITE,
};
use elfloader::loader::{
    check_stack_request, copy_into, entry_is_executable, load, load_in, Loaded, MapSrc, Vm, Where,
    COPY_CHUNK, RW,
};
use elfloader::program::{
    load_interp_from, load_program, load_program_from, try_load_program, Environment, Failure,
    InterpFailure, Opened, Opener,
};
use std::collections::BTreeMap;

/// The machine that the fixtures are built for, unless they say otherwise.
const EM_NATIVE: u16 = EM_X86_64;

struct TestImage {
    bytes: Vec<u8>,
}

impl TestImage {
    fn as_slice(&self) -> &[u8] {
        &self.bytes
    }
}

type Patch = (usize, fn(&mut Phdr));

struct ElfBuilder {
    e_type: u16,
    e_machine: u16,
    e_entry: u64,
    phdrs: Vec<Phdr>,
    overlays: Vec<(u64, Vec<u8>)>,
    patches: Vec<Patch>,
    force_phnum: Option<u16>,
    reverse: bool,
}

fn segment(flags: u32, off: u64, va: u64, filesz: u64, memsz: u64, align: u64) -> Phdr {
    Phdr {
        p_type: PT_LOAD,
        p_flags: flags,
        p_offset: off,
        p_vaddr: va,
        p_paddr: va,
        p_filesz: filesz,
        p_memsz: memsz,
        p_align: align,
    }
}

impl ElfBuilder {
    fn new() -> Self {
        ElfBuilder {
            e_type: ET_DYN,
            e_machine: EM_NATIVE,
            e_entry: 0x400,
            phdrs: Vec::new(),
            overlays: Vec::new(),
            patches: Vec::new(),
            force_phnum: None,
            reverse: false,
        }
    }

    // --- shapes ---------------------------------------------------------

    /// The simplest thing that loads: two page-aligned segments, no
    /// interpreter. Indices into `phdrs` coincide with the PT_LOAD order, so
    /// tests can use `patch_phdr(0)` / `patch_phdr(1)`.
    fn pie_two_segment(mut self) -> Self {
        self.phdrs = vec![
            segment(PF_R | PF_X, 0x0, 0x0, 0x1000, 0x1000, 0x1000),
            segment(PF_R | PF_W, 0x1000, 0x2000, 0x500, 0x1500, 0x1000),
        ];
        self
    }

    /// `-no-pie`: ET_EXEC linked at the traditional 0x400000.
    fn non_pie(mut self) -> Self {
        self.e_type = ET_EXEC;
        self.e_entry = 0x400500;
        self.phdrs = vec![
            segment(PF_R | PF_X, 0x0, 0x400000, 0x1000, 0x1000, 0x1000),
            segment(PF_R | PF_W, 0x1000, 0x402000, 0x500, 0x1500, 0x1000),
        ];
        self
    }

    /// A dynamically linked arm64 shared object, shaped like glibc's:
    /// 64 KiB `p_align`, a gap between the code and data segments, a data
    /// segment whose `memsz` exceeds `filesz` by whole pages, plus PT_PHDR,
    /// PT_INTERP, PT_TLS, PT_DYNAMIC and PT_GNU_RELRO.
    fn glibc_arm64_style(mut self) -> Self {
        const INTERP_OFF: u64 = 0x200;
        let interp = b"/lib/ld-linux-aarch64.so.1\0";
        self.e_entry = 0x7930;
        self.phdrs = vec![
            Phdr {
                p_type: PT_PHDR,
                p_flags: PF_R,
                p_offset: 0x40,
                p_vaddr: 0x40,
                p_paddr: 0x40,
                p_filesz: 7 * PHDR_SIZE as u64,
                p_memsz: 7 * PHDR_SIZE as u64,
                p_align: 8,
            },
            Phdr {
                p_type: PT_INTERP,
                p_flags: PF_R,
                p_offset: INTERP_OFF,
                p_vaddr: INTERP_OFF,
                p_paddr: INTERP_OFF,
                p_filesz: interp.len() as u64,
                p_memsz: interp.len() as u64,
                p_align: 1,
            },
            segment(PF_R | PF_X, 0x0, 0x0, 0x1b89c, 0x1b89c, 0x10000),
            segment(PF_R | PF_W, 0x1cdc0, 0x2cdc0, 0x4908, 0x112a0, 0x10000),
            Phdr {
                p_type: PT_DYNAMIC,
                p_flags: PF_R | PF_W,
                p_offset: 0x1fbb0,
                p_vaddr: 0x2fbb0,
                p_paddr: 0x2fbb0,
                p_filesz: 0x1b0,
                p_memsz: 0x1b0,
                p_align: 8,
            },
            Phdr {
                p_type: PT_TLS,
                p_flags: PF_R,
                p_offset: 0x1cdc0,
                p_vaddr: 0x2cdc0,
                p_paddr: 0x2cdc0,
                p_filesz: 0x10,
                p_memsz: 0x90,
                p_align: 0x10,
            },
            Phdr {
                p_type: PT_GNU_RELRO,
                p_flags: PF_R,
                p_offset: 0x1cdc0,
                p_vaddr: 0x2cdc0,
                p_paddr: 0x2cdc0,
                p_filesz: 0x3240,
                p_memsz: 0x3240,
                p_align: 1,
            },
        ];
        self.overlays.push((INTERP_OFF, interp.to_vec()));
        self
    }

    /// What a current toolchain emits with `-z separate-code`: four PT_LOADs,
    /// only one of them executable.
    fn four_segment_separate_code(mut self) -> Self {
        self.e_entry = 0x1100;
        self.phdrs = vec![
            segment(PF_R, 0x0, 0x0, 0x1000, 0x1000, 0x1000),
            segment(PF_R | PF_X, 0x1000, 0x1000, 0x2000, 0x2000, 0x1000),
            segment(PF_R, 0x3000, 0x3000, 0x1000, 0x1000, 0x1000),
            segment(PF_R | PF_W, 0x4000, 0x5000, 0x800, 0x2000, 0x1000),
        ];
        self
    }

    /// A data segment that does not start on a page boundary, but is
    /// congruent with its file offset -- legal, and the case where getting the
    /// mmap offset wrong shifts the whole segment.
    fn unaligned_second_segment(mut self) -> Self {
        self.phdrs = vec![
            segment(PF_R | PF_X, 0x0, 0x0, 0x1000, 0x1000, 0x1000),
            segment(PF_R | PF_W, 0x1234, 0x2234, 0x500, 0x900, 0x1000),
        ];
        self
    }

    /// PT_INTERP whose contents are not NUL-terminated.
    fn interp_without_nul(mut self) -> Self {
        const OFF: u64 = 0x200;
        let s = b"/lib/ld-musl-aarch64.so.1";
        self = self.pie_two_segment();
        self.phdrs.push(Phdr {
            p_type: PT_INTERP,
            p_flags: PF_R,
            p_offset: OFF,
            p_vaddr: OFF,
            p_paddr: OFF,
            p_filesz: s.len() as u64,
            p_memsz: s.len() as u64,
            p_align: 1,
        });
        self.overlays.push((OFF, s.to_vec()));
        self
    }

    // --- modifiers ------------------------------------------------------

    fn machine(mut self, m: u16) -> Self {
        self.e_machine = m;
        self
    }

    fn patch_phdr(mut self, idx: usize, f: fn(&mut Phdr)) -> Self {
        self.patches.push((idx, f));
        self
    }

    fn phnum_xnum(mut self) -> Self {
        self.force_phnum = Some(PN_XNUM);
        self
    }

    fn reverse_phdrs(mut self) -> Self {
        self.reverse = true;
        self
    }

    fn exec_stack(mut self) -> Self {
        self.phdrs.push(Phdr {
            p_type: PT_GNU_STACK,
            p_flags: PF_R | PF_W | PF_X,
            ..Phdr::default()
        });
        self
    }

    /// Drop PT_INTERP: a dynamic linker looks like this -- same 64 KiB
    /// alignment and inter-segment gap as the program it loads, but it asks
    /// for no interpreter of its own.
    fn no_interp(mut self) -> Self {
        self.phdrs.retain(|p| p.p_type != PT_INTERP);
        self
    }

    fn drop_pt_phdr(mut self) -> Self {
        self.phdrs.retain(|p| p.p_type != PT_PHDR);
        self
    }

    // --- serialisation --------------------------------------------------

    fn build(mut self) -> TestImage {
        for (idx, f) in std::mem::take(&mut self.patches) {
            f(&mut self.phdrs[idx]);
        }
        if self.reverse {
            self.phdrs.reverse();
        }

        let phoff = EHDR_SIZE as u64;
        let phnum = self.phdrs.len() as u64;
        let mut size = phoff + phnum * PHDR_SIZE as u64;
        for p in &self.phdrs {
            // Saturating: some fixtures deliberately set an absurd p_filesz to
            // exercise the "past end of file" rejection, and the file must not
            // grow to accommodate it.
            if p.p_filesz < (1 << 32) {
                size = size.max(p.p_offset.saturating_add(p.p_filesz));
            }
        }
        for (off, data) in &self.overlays {
            size = size.max(off + data.len() as u64);
        }
        let size = ((size + 0xfff) & !0xfff) as usize;

        // A recognisable, NUL-free-ish pattern so loader tests can assert that
        // file byte N really landed at the address it should have.
        let mut b: Vec<u8> = (0..size).map(|i| (i % 251) as u8 | 1).collect();

        b[0..4].copy_from_slice(&ELFMAG);
        b[EI_CLASS] = ELFCLASS64;
        b[EI_DATA] = ELFDATA2LSB;
        b[EI_VERSION] = EV_CURRENT;
        b[EI_OSABI] = ELFOSABI_NONE;
        b[EI_ABIVERSION] = 0;
        b[9..16].fill(0);

        put16(&mut b, 16, self.e_type);
        put16(&mut b, 18, self.e_machine);
        put32(&mut b, 20, 1);
        put64(&mut b, 24, self.e_entry);
        put64(&mut b, 32, phoff);
        put64(&mut b, 40, 0); // e_shoff
        put32(&mut b, 48, 0);
        put16(&mut b, 52, EHDR_SIZE as u16);
        put16(&mut b, 54, PHDR_SIZE as u16);
        put16(&mut b, 56, self.force_phnum.unwrap_or(phnum as u16));
        put16(&mut b, 58, 64);
        put16(&mut b, 60, 0);
        put16(&mut b, 62, 0);

        for (i, p) in self.phdrs.iter().enumerate() {
            let o = phoff as usize + i * PHDR_SIZE;
            put32(&mut b, o, p.p_type);
            put32(&mut b, o + 4, p.p_flags);
            put64(&mut b, o + 8, p.p_offset);
            put64(&mut b, o + 16, p.p_vaddr);
            put64(&mut b, o + 24, p.p_paddr);
            put64(&mut b, o + 32, p.p_filesz);
            put64(&mut b, o + 40, p.p_memsz);
            put64(&mut b, o + 48, p.p_align);
        }

        for (off, data) in &self.overlays {
            let o = *off as usize;
            b[o..o + data.len()].copy_from_slice(data);
        }

        TestImage { bytes: b }
    }
}

fn put16(b: &mut [u8], o: usize, v: u16) {
    b[o..o + 2].copy_from_slice(&v.to_le_bytes());
}
fn put32(b: &mut [u8], o: usize, v: u32) {
    b[o..o + 4].copy_from_slice(&v.to_le_bytes());
}
fn put64(b: &mut [u8], o: usize, v: u64) {
    b[o..o + 8].copy_from_slice(&v.to_le_bytes());
}

#[derive(Clone, Debug)]
struct Region {
    len: u64,
    prot: u32,
    data: Vec<u8>,
}

#[derive(Clone, Debug, PartialEq, Eq)]
enum Op {
    Mmap { addr: u64, len: u64, prot: u32 },
    Unmap { addr: u64, len: u64 },
    Protect { addr: u64, len: u64, prot: u32 },
    Zero { addr: u64, len: u64 },
    Icache { addr: u64, len: u64 },
}

/// A model address space that behaves like Unikraft's: `uk_vma_map()` with no
/// address picks the *first* free range at or above a fixed base, so any hole
/// the loader leaves is a hole something else can be put in.
struct FakeVm {
    page: u64,
    can_map_files: bool,
    machine: u16,
    base: u64,
    regions: BTreeMap<u64, Region>,
    log: Vec<Op>,
    heap: u64,
    /// File contents served for file-backed mappings.
    files: BTreeMap<i32, Vec<u8>>,
    /// How many calls succeed before one fails.
    budget: usize,
}

impl FakeVm {
    fn new() -> Self {
        FakeVm {
            page: 4096,
            can_map_files: true,
            machine: EM_NATIVE,
            base: 0x1000_0000,
            regions: BTreeMap::new(),
            log: Vec::new(),
            heap: 0x8000_0000_0000,
            files: BTreeMap::new(),
            budget: usize::MAX,
        }
    }

    fn no_files(mut self) -> Self {
        self.can_map_files = false;
        self
    }

    /// Fail every map, zero and protect after the first `n`.
    fn failing_after(mut self, n: usize) -> Self {
        self.budget = n;
        self
    }

    fn install(&mut self, fd: i32, img: &TestImage) {
        self.files.insert(fd, img.bytes.clone());
    }

    fn ops(&self) -> Vec<Op> {
        self.log.clone()
    }

    /// Every mapped byte, for overlap assertions.
    fn regions(&self) -> Vec<(u64, u64, u32)> {
        self.regions
            .iter()
            .map(|(&a, r)| (a, r.len, r.prot))
            .collect()
    }

    fn read(&self, addr: u64, len: usize) -> Vec<u8> {
        let (&start, r) = self
            .regions
            .range(..=addr)
            .next_back()
            .expect("address is not mapped");
        assert!(
            addr + len as u64 <= start + r.len,
            "read {addr:#x}+{len:#x} crosses out of region {start:#x}+{:#x}",
            r.len
        );
        let o = (addr - start) as usize;
        r.data[o..o + len].to_vec()
    }

    fn prot_at(&self, addr: u64) -> u32 {
        let (&start, r) = self.regions.range(..=addr).next_back().expect("unmapped");
        assert!(addr < start + r.len, "{addr:#x} is in a hole");
        r.prot
    }

    fn is_mapped(&self, addr: u64) -> bool {
        match self.regions.range(..=addr).next_back() {
            Some((&start, r)) => addr < start + r.len,
            None => false,
        }
    }

    fn spend(&mut self) -> Result<(), Error> {
        if self.budget == 0 {
            return Err(Error(EIO));
        }
        self.budget -= 1;
        Ok(())
    }

    /// Carve `[addr, addr+len)` out of whatever occupies it.
    fn punch(&mut self, addr: u64, len: u64) {
        let end = addr + len;
        let hits: Vec<u64> = self
            .regions
            .range(..end)
            .filter(|(&s, r)| s + r.len > addr)
            .map(|(&s, _)| s)
            .collect();
        for s in hits {
            let r = self.regions.remove(&s).unwrap();
            let e = s + r.len;
            if s < addr {
                let n = (addr - s) as usize;
                self.regions.insert(
                    s,
                    Region {
                        len: addr - s,
                        prot: r.prot,
                        data: r.data[..n].to_vec(),
                    },
                );
            }
            if e > end {
                let o = (end - s) as usize;
                self.regions.insert(
                    end,
                    Region {
                        len: e - end,
                        prot: r.prot,
                        data: r.data[o..].to_vec(),
                    },
                );
            }
        }
    }

    /// What an unrelated `mmap(NULL, len)` would return right now.
    fn would_place(&self, len: u64) -> u64 {
        let mut cur = self.base;
        for (&s, r) in self.regions.iter() {
            if s + r.len <= cur {
                continue;
            }
            if s >= cur + len {
                return cur;
            }
            cur = s + r.len;
        }
        cur
    }
}

impl Vm for FakeVm {
    fn page_size(&self) -> u64 {
        self.page
    }

    fn can_map_files(&self) -> bool {
        self.can_map_files
    }

    fn machine(&self) -> u16 {
        self.machine
    }

    fn map(&mut self, at: Where, len: u64, prot: u32, src: MapSrc) -> Result<u64, Error> {
        assert_eq!(len % self.page, 0, "map length {len:#x} is not page-aligned");
        self.spend()?;
        let addr = match at {
            Where::Anywhere => self.would_place(len),
            Where::Hint(a) => {
                let free = self
                    .regions
                    .range(..a + len)
                    .all(|(&s, r)| s + r.len <= a || s >= a + len);
                if free {
                    a
                } else {
                    self.would_place(len)
                }
            }
            Where::Exact(a) => {
                self.punch(a, len);
                a
            }
        };
        assert_eq!(addr % self.page, 0);

        let mut data = vec![0u8; len as usize];
        if let MapSrc::File { fd, off } = src {
            let file = self.files.get(&fd).expect("unknown fd");
            let start = off as usize;
            let n = file.len().saturating_sub(start).min(len as usize);
            data[..n].copy_from_slice(&file[start..start + n]);
        }
        self.regions.insert(addr, Region { len, prot, data });
        self.log.push(Op::Mmap { addr, len, prot });
        Ok(addr)
    }

    fn unmap(&mut self, addr: u64, len: u64) -> Result<(), Error> {
        self.punch(addr, len);
        self.log.push(Op::Unmap { addr, len });
        Ok(())
    }

    fn protect(&mut self, addr: u64, len: u64, prot: u32) -> Result<(), Error> {
        self.spend()?;
        let end = addr + len;
        let hits: Vec<u64> = self
            .regions
            .range(..end)
            .filter(|(&s, r)| s + r.len > addr)
            .map(|(&s, _)| s)
            .collect();
        assert!(!hits.is_empty(), "protect on unmapped {addr:#x}+{len:#x}");
        for s in hits {
            self.regions.get_mut(&s).unwrap().prot = prot;
        }
        self.log.push(Op::Protect { addr, len, prot });
        Ok(())
    }

    fn write(&mut self, addr: u64, data: &[u8]) -> Result<(), Error> {
        let (&start, r) = self
            .regions
            .range_mut(..=addr)
            .next_back()
            .expect("write to unmapped memory");
        assert!(
            addr + data.len() as u64 <= start + r.len,
            "write {addr:#x}+{:#x} runs past its region",
            data.len()
        );
        assert!(r.prot & PROT_WRITE != 0, "write to non-writable mapping");
        let o = (addr - start) as usize;
        r.data[o..o + data.len()].copy_from_slice(data);
        Ok(())
    }

    fn zero(&mut self, addr: u64, len: u64) -> Result<(), Error> {
        self.spend()?;
        let (&start, r) = self
            .regions
            .range_mut(..=addr)
            .next_back()
            .expect("zero of unmapped memory");
        assert!(addr + len <= start + r.len, "zero runs past its region");
        assert!(r.prot & PROT_WRITE != 0, "zero of non-writable mapping");
        let o = (addr - start) as usize;
        r.data[o..o + len as usize].fill(0);
        self.log.push(Op::Zero { addr, len });
        Ok(())
    }

    fn icache_sync(&mut self, addr: u64, len: u64) {
        self.log.push(Op::Icache { addr, len });
    }

    fn alloc_aligned(&mut self, align: u64, len: u64) -> Result<u64, Error> {
        let addr = (self.heap + align - 1) & !(align - 1);
        self.heap = addr + len;
        self.regions.insert(
            addr,
            Region {
                len,
                prot: RW,
                data: vec![0u8; len as usize],
            },
        );
        self.log.push(Op::Mmap {
            addr,
            len,
            prot: RW,
        });
        Ok(addr)
    }

    fn free_aligned(&mut self, addr: u64, len: u64) {
        self.punch(addr, len);
        self.log.push(Op::Unmap { addr, len });
    }
}

/// A stack living in a `Vec`, at a plausible virtual address.
struct FakeStack {
    base: u64,
    mem: Vec<u8>,
    /// Lowest address ever written, to catch overruns that stay in range.
    low: u64,
}

impl FakeStack {
    fn new(base: u64, len: usize) -> Self {
        FakeStack {
            base,
            mem: vec![0xAA; len],
            low: base + len as u64,
        }
    }
    fn read(&self, addr: u64, n: usize) -> &[u8] {
        let o = (addr - self.base) as usize;
        &self.mem[o..o + n]
    }
    fn u64_at(&self, addr: u64) -> u64 {
        let mut b = [0u8; 8];
        b.copy_from_slice(self.read(addr, 8));
        u64::from_le_bytes(b)
    }
    fn cstr_at(&self, addr: u64) -> Vec<u8> {
        let o = (addr - self.base) as usize;
        let end = self.mem[o..].iter().position(|&b| b == 0).unwrap() + o;
        self.mem[o..end].to_vec()
    }
}

impl StackWriter for FakeStack {
    fn top(&self) -> u64 {
        self.base + self.mem.len() as u64
    }
    fn bottom(&self) -> u64 {
        self.base
    }
    fn write(&mut self, addr: u64, data: &[u8]) -> Result<(), Error> {
        assert!(addr >= self.bottom(), "write below the stack");
        assert!(
            addr + data.len() as u64 <= self.top(),
            "write above the stack"
        );
        self.low = self.low.min(addr);
        let o = (addr - self.base) as usize;
        self.mem[o..o + data.len()].copy_from_slice(data);
        Ok(())
    }
}

impl FakeStack {
    /// Look one auxiliary vector entry up in a stack that `build_stack` has
    /// already laid out, the way a libc start-up would.
    fn auxv_value(&self, sp: u64, key: u64) -> Option<u64> {
        let argc = self.u64_at(sp) as usize;
        let mut at = sp + 8 + (argc as u64 + 1) * 8;
        while self.u64_at(at) != 0 {
            at += 8;
        }
        at += 8;
        loop {
            let k = self.u64_at(at);
            let v = self.u64_at(at + 8);
            at += 16;
            if k == AT_NULL {
                return None;
            }
            if k == key {
                return Some(v);
            }
        }
    }
}

// --- parsing -------------------------------------------------------------

#[test]
fn parses_a_minimal_pie() {
    let img = ElfBuilder::new().pie_two_segment().build();
    let e = Image::parse(&mut SliceSource::new(img.as_slice()), 4096, EM_NATIVE).unwrap();
    assert!(e.is_pie());
    assert_eq!(e.loads.len(), 2);
    assert!(!e.needs_interp());
    assert_eq!(e.va_span(4096).unwrap().0, 0);
}

#[test]
fn accepts_non_pie() {
    let img = ElfBuilder::new().non_pie().build();
    let e = Image::parse(&mut SliceSource::new(img.as_slice()), 4096, EM_NATIVE).unwrap();
    assert!(!e.is_pie());
    assert_eq!(e.ehdr.e_type, ET_EXEC);
    // The whole point: the span starts at the link address, not at 0.
    assert_eq!(e.va_span(4096).unwrap().0, 0x400000);
}

#[test]
fn accepts_glibc_style_64k_alignment() {
    let img = ElfBuilder::new().glibc_arm64_style().build();
    let e = Image::parse(&mut SliceSource::new(img.as_slice()), 4096, EM_NATIVE).unwrap();
    assert_eq!(e.load_align(4096), 0x10000);
    assert!(e.needs_interp());
    assert_eq!(
        e.interp_path(&mut SliceSource::new(img.as_slice())).unwrap(),
        b"/lib/ld-linux-aarch64.so.1"
    );
}

#[test]
fn rejects_non_elf() {
    assert_eq!(
        Image::parse(&mut SliceSource::new(b"#!/bin/sh\n"), 4096, EM_NATIVE).unwrap_err(),
        Reject::NotElf
    );
    assert_eq!(
        Image::parse(&mut SliceSource::new(&[]), 4096, EM_NATIVE).unwrap_err(),
        Reject::NotElf
    );
}

#[test]
fn rejects_wrong_machine() {
    let img = ElfBuilder::new().pie_two_segment().machine(0x1234).build();
    assert!(matches!(
        Image::parse(&mut SliceSource::new(img.as_slice()), 4096, EM_NATIVE).unwrap_err(),
        Reject::Unsupported(_)
    ));
}

#[test]
fn rejects_truncated_phdr_table() {
    let mut img = ElfBuilder::new().pie_two_segment().build();
    img.bytes.truncate(72); // ehdr plus a fragment of one phdr
    assert!(matches!(
        Image::parse(&mut SliceSource::new(img.as_slice()), 4096, EM_NATIVE).unwrap_err(),
        Reject::Malformed(_)
    ));
}

#[test]
fn rejects_segment_past_end_of_file() {
    let img = ElfBuilder::new()
        .pie_two_segment()
        .patch_phdr(0, |p| p.p_filesz = 1 << 40)
        .build();
    assert!(matches!(
        Image::parse(&mut SliceSource::new(img.as_slice()), 4096, EM_NATIVE).unwrap_err(),
        Reject::Malformed(_)
    ));
}

#[test]
fn rejects_vaddr_memsz_overflow() {
    let img = ElfBuilder::new()
        .pie_two_segment()
        .patch_phdr(0, |p| {
            p.p_vaddr = u64::MAX - 0xfff;
            p.p_memsz = 0x2000;
        })
        .build();
    assert!(matches!(
        Image::parse(&mut SliceSource::new(img.as_slice()), 4096, EM_NATIVE).unwrap_err(),
        Reject::Malformed(_)
    ));
}

#[test]
fn rejects_filesz_greater_than_memsz() {
    let img = ElfBuilder::new()
        .pie_two_segment()
        .patch_phdr(0, |p| p.p_memsz = 1)
        .build();
    assert!(matches!(
        Image::parse(&mut SliceSource::new(img.as_slice()), 4096, EM_NATIVE).unwrap_err(),
        Reject::Malformed(_)
    ));
}

#[test]
fn rejects_non_congruent_segment() {
    // A segment whose file offset and virtual address disagree below the
    // page size cannot be produced by one mmap.
    let img = ElfBuilder::new()
        .pie_two_segment()
        .patch_phdr(0, |p| p.p_vaddr += 0x40)
        .build();
    assert!(matches!(
        Image::parse(&mut SliceSource::new(img.as_slice()), 4096, EM_NATIVE).unwrap_err(),
        Reject::Malformed(_)
    ));
}

#[test]
fn rejects_overlapping_segments() {
    let img = ElfBuilder::new()
        .pie_two_segment()
        .patch_phdr(1, |p| p.p_vaddr = 0)
        .build();
    assert!(matches!(
        Image::parse(&mut SliceSource::new(img.as_slice()), 4096, EM_NATIVE).unwrap_err(),
        Reject::Malformed(_)
    ));
}

#[test]
fn rejects_pn_xnum() {
    let img = ElfBuilder::new().pie_two_segment().phnum_xnum().build();
    assert!(matches!(
        Image::parse(&mut SliceSource::new(img.as_slice()), 4096, EM_NATIVE).unwrap_err(),
        Reject::Unsupported(_)
    ));
}

#[test]
fn rejects_unterminated_interp() {
    let img = ElfBuilder::new().interp_without_nul().build();
    let e = Image::parse(&mut SliceSource::new(img.as_slice()), 4096, EM_NATIVE).unwrap();
    assert_eq!(e.interp_path(&mut SliceSource::new(img.as_slice())).unwrap_err(), Error(ENOEXEC));
}

#[test]
fn segments_are_sorted_by_vaddr() {
    let img = ElfBuilder::new().pie_two_segment().reverse_phdrs().build();
    let e = Image::parse(&mut SliceSource::new(img.as_slice()), 4096, EM_NATIVE).unwrap();
    let a = e.phdrs[e.loads[0]].p_vaddr;
    let b = e.phdrs[e.loads[1]].p_vaddr;
    assert!(a < b, "loads should be ascending, got {a:#x} then {b:#x}");
}

#[test]
fn notices_executable_stack_request() {
    let img = ElfBuilder::new().pie_two_segment().exec_stack().build();
    let e = Image::parse(&mut SliceSource::new(img.as_slice()), 4096, EM_NATIVE).unwrap();
    assert!(e.exec_stack);
}

// --- planning ------------------------------------------------------------

fn parse_image(img: &TestImage) -> Image {
    Image::parse(&mut SliceSource::new(img.as_slice()), 4096, EM_NATIVE).unwrap()
}

#[test]
fn prot_bits_follow_pf_flags_not_prot_constants() {
    let mut ph = Phdr::default();
    ph.p_flags = PF_R | PF_X;
    assert_eq!(prot_of(&ph), PROT_READ | PROT_EXEC);
    ph.p_flags = PF_R | PF_W;
    // PF_R (4) happens to equal PROT_EXEC (4), but a RW data segment must not
    // come out executable.
    assert_eq!(prot_of(&ph), PROT_READ | PROT_WRITE);
    assert_eq!(prot_of(&ph) & PROT_EXEC, 0);
    ph.p_flags = 0;
    assert_eq!(prot_of(&ph), PROT_NONE);
}

#[test]
fn pie_is_biased_to_the_chosen_base() {
    let img = parse_image(&ElfBuilder::new().pie_two_segment().build());
    let p = plan(&img, 4096, Placement::At(0x1000_0000)).unwrap();
    assert_eq!(p.bias, 0x1000_0000);
    assert_eq!(p.base, 0x1000_0000);
    assert_eq!(p.entry, img.ehdr.e_entry + 0x1000_0000);
}

#[test]
fn non_pie_keeps_its_link_address() {
    let img = parse_image(&ElfBuilder::new().non_pie().build());
    let p = plan(&img, 4096, Placement::Fixed).unwrap();
    assert_eq!(p.bias, 0);
    assert_eq!(p.base, 0x400000);
    assert_eq!(p.entry, img.ehdr.e_entry);
    // And, crucially, the reservation covers only the image, not everything
    // from address zero.
    assert!(
        p.reserve_len < 0x400000,
        "reservation {:#x} should not span from zero",
        p.reserve_len
    );
}

#[test]
fn reservation_absorbs_alignment_slack() {
    let img = parse_image(&ElfBuilder::new().glibc_arm64_style().build());
    let need = reservation_len(&img, 4096).unwrap();
    let (lo, hi) = img.va_span(4096).unwrap();
    assert_eq!(need, (hi - lo) + 0x10000 - 0x1000);

    // A base that is already 64K-aligned wastes nothing at the front, but
    // the reservation still runs to the end so nothing can be placed in
    // the tail.
    let p = plan(&img, 4096, Placement::At(0x2000_0000)).unwrap();
    assert_eq!(p.bias, 0x2000_0000);
    assert_eq!(p.reserve_addr, 0x2000_0000);
    assert_eq!(p.reserve_len, need);
    assert!(p.reserve_addr + p.reserve_len >= p.end);
}

#[test]
fn unaligned_reservation_base_is_rounded_up() {
    let img = parse_image(&ElfBuilder::new().glibc_arm64_style().build());
    let p = plan(&img, 4096, Placement::At(0x2000_1000)).unwrap();
    assert_eq!(p.base, 0x2001_0000);
    assert_eq!(p.reserve_addr, 0x2000_1000);
    // The slack at the front stays reserved rather than being handed back.
    assert!(p.reserve_addr < p.base);
    assert!(p.reserve_addr + p.reserve_len >= p.end);
}

#[test]
fn bss_is_split_into_a_zeroed_tail_and_anonymous_pages() {
    // filesz 0x4908, memsz 0x112a0 -- the shape of glibc's data segment.
    let img = parse_image(&ElfBuilder::new().glibc_arm64_style().build());
    let p = plan(&img, 4096, Placement::At(0x1000_0000)).unwrap();
    let data = p
        .segments
        .iter()
        .find(|s| img.phdrs[s.idx].is_write())
        .unwrap();

    let ph = &img.phdrs[data.idx];
    let vaddr = ph.p_vaddr + p.bias;
    let fend = vaddr + ph.p_filesz;

    let z = data.zero.expect("partial page past filesz must be cleared");
    assert_eq!(z.addr, fend);
    assert_eq!(z.addr + z.len, align_up(fend, 4096).unwrap());

    let a = data.anon.expect("whole bss pages must be anonymous");
    assert_eq!(a.addr, align_up(fend, 4096).unwrap());
    assert_eq!(a.addr + a.len, align_up(vaddr + ph.p_memsz, 4096).unwrap());

    // The file mapping stops at a page boundary and never covers bss.
    let f = data.file.unwrap();
    assert_eq!(f.addr % 4096, 0);
    assert_eq!(f.off % 4096, 0);
    assert_eq!(f.addr + f.len, align_up(fend, 4096).unwrap());
}

#[test]
fn read_only_segment_with_bss_gets_a_write_window() {
    // Rare but legal. The segment has to end mid-page for there to be a tail
    // worth clearing.
    let img = parse_image(
        &ElfBuilder::new()
            .pie_two_segment()
            .patch_phdr(0, |p| {
                p.p_flags = PF_R | PF_X;
                p.p_filesz = 0xf00;
                p.p_memsz = 0x1100;
            })
            .build(),
    );
    let p = plan(&img, 4096, Placement::At(0x1000_0000)).unwrap();
    let s = &p.segments[0];
    assert!(s.zero.is_some());
    assert!(s.needs_write_window);
    assert_eq!(s.prot, PROT_READ | PROT_EXEC);
}

#[test]
fn zero_filesz_segment_is_entirely_anonymous() {
    let img = parse_image(
        &ElfBuilder::new()
            .pie_two_segment()
            .patch_phdr(1, |p| {
                p.p_filesz = 0;
                p.p_memsz = 0x3000;
            })
            .build(),
    );
    let p = plan(&img, 4096, Placement::At(0x1000_0000)).unwrap();
    let s = p.segments.iter().find(|s| s.idx == 1).unwrap();
    assert!(s.file.is_none());
    assert!(s.zero.is_none());
    let a = s.anon.unwrap();
    assert_eq!(a.len, 0x3000);
}

#[test]
fn file_mapping_offset_stays_congruent_for_unaligned_vaddr() {
    // A segment starting mid-page: the mapping has to begin at the page
    // below, with the file offset shifted by the same amount, or the
    // contents land at the wrong address.
    let img = parse_image(&ElfBuilder::new().unaligned_second_segment().build());
    let p = plan(&img, 4096, Placement::At(0x1000_0000)).unwrap();
    for s in &p.segments {
        if let Some(f) = s.file {
            let ph = &img.phdrs[s.idx];
            assert_eq!(f.addr % 4096, 0);
            assert_eq!(f.off % 4096, 0);
            // The byte at p_offset must land exactly at p_vaddr + bias.
            assert_eq!(f.addr + (ph.p_offset - f.off), ph.p_vaddr + p.bias);
        }
    }
}

#[test]
fn segments_never_overlap_in_the_plan() {
    for img in [
        ElfBuilder::new().pie_two_segment().build(),
        ElfBuilder::new().glibc_arm64_style().build(),
        ElfBuilder::new().non_pie().build(),
        ElfBuilder::new().four_segment_separate_code().build(),
    ] {
        let e = parse_image(&img);
        let placement = if e.is_pie() {
            Placement::At(0x1000_0000)
        } else {
            Placement::Fixed
        };
        let p = plan(&e, 4096, placement).unwrap();
        let mut ranges: Vec<(u64, u64)> = p.segments.iter().map(|s| s.range()).collect();
        ranges.sort();
        for w in ranges.windows(2) {
            assert!(
                w[0].1 <= w[1].0,
                "segments overlap: {:#x?} then {:#x?}",
                w[0],
                w[1]
            );
        }
        // Everything the plan maps lies inside the reservation.
        for (a, b) in ranges {
            assert!(a >= p.reserve_addr, "{a:#x} below reservation");
            assert!(b <= p.reserve_addr + p.reserve_len, "{b:#x} past reservation");
        }
    }
}

#[test]
fn phdr_addr_prefers_pt_phdr_then_falls_back() {
    let img = parse_image(&ElfBuilder::new().glibc_arm64_style().build());
    let p = plan(&img, 4096, Placement::At(0x1000_0000)).unwrap();
    let pt_phdr = img.phdr_seg.unwrap();
    assert_eq!(p.phdr_addr(&img), Some(pt_phdr.p_vaddr + p.bias));

    // Without PT_PHDR the table is located through the covering PT_LOAD,
    // and must come out at the same address.
    let img2 = parse_image(&ElfBuilder::new().glibc_arm64_style().drop_pt_phdr().build());
    let p2 = plan(&img2, 4096, Placement::At(0x1000_0000)).unwrap();
    assert_eq!(p2.phdr_addr(&img2), Some(img2.ehdr.e_phoff + p2.bias));
}

#[test]
fn exec_ranges_cover_only_executable_segments() {
    let img = parse_image(&ElfBuilder::new().four_segment_separate_code().build());
    let p = plan(&img, 4096, Placement::At(0x1000_0000)).unwrap();
    let ranges: Vec<(u64, u64)> = p.exec_ranges(&img);
    assert_eq!(ranges.len(), 1);
    let x = img
        .loads
        .iter()
        .map(|&i| &img.phdrs[i])
        .find(|ph| ph.is_exec())
        .unwrap();
    assert!(ranges[0].0 <= x.p_vaddr + p.bias);
    assert!(ranges[0].0 + ranges[0].1 >= x.p_vaddr + p.bias + x.p_memsz);
}

// --- loading -------------------------------------------------------------

fn load_fixture(vm: &mut FakeVm, img: &TestImage, fd: i32) -> Loaded {
    vm.install(fd, img);
    let e = Image::parse(&mut SliceSource::new(img.as_slice()), 4096, EM_NATIVE).unwrap();
    load("test", &e, &mut SliceSource::new(img.as_slice()), Some(fd), vm).unwrap()
}

#[test]
fn image_range_is_never_left_unreserved() {
    // Replay the operation log and check that after the very first map, every
    // address inside the image's span is continuously covered.
    let mut vm = FakeVm::new();
    let img = ElfBuilder::new().glibc_arm64_style().build();
    let l = load_fixture(&mut vm, &img, 3);

    let ops = vm.ops();
    assert!(matches!(ops[0], Op::Mmap { .. }), "reservation comes first");
    assert!(
        !ops.iter().any(|o| matches!(o, Op::Unmap { .. })),
        "nothing is unmapped during a successful load: {ops:#?}"
    );

    // And the whole span, holes included, is still covered afterwards.
    let mut a = l.plan.reserve_addr;
    while a < l.plan.reserve_addr + l.plan.reserve_len {
        assert!(vm.is_mapped(a), "{a:#x} is not mapped");
        a += 4096;
    }
}

#[test]
fn a_later_anonymous_mapping_cannot_land_inside_the_image() {
    // First-fit would hand the inter-segment gap of a glibc-style image
    // (64 KiB, from `-z max-page-size=0x10000`) straight back if it were free.
    let mut vm = FakeVm::new();
    let img = ElfBuilder::new().glibc_arm64_style().build();
    let l = load_fixture(&mut vm, &img, 3);

    let placed = vm.would_place(0x4000);
    assert!(
        placed >= l.plan.reserve_addr + l.plan.reserve_len,
        "a 16 KiB mapping would be placed at {placed:#x}, inside the image \
         {:#x}..{:#x}",
        l.plan.reserve_addr,
        l.plan.reserve_addr + l.plan.reserve_len
    );
}

#[test]
fn segment_contents_land_at_the_right_addresses() {
    let mut vm = FakeVm::new();
    let img = ElfBuilder::new().unaligned_second_segment().build();
    let l = load_fixture(&mut vm, &img, 3);
    let e = Image::parse(&mut SliceSource::new(img.as_slice()), 4096, EM_NATIVE).unwrap();

    for &i in &e.loads {
        let ph = &e.phdrs[i];
        let va = ph.p_vaddr + l.plan.bias;
        let n = ph.p_filesz.min(256) as usize;
        let got = vm.read(va, n);
        let want = &img.bytes[ph.p_offset as usize..ph.p_offset as usize + n];
        assert_eq!(got, want, "segment {i} contents are shifted");

        // ...and the last byte of the segment too, which is where an
        // off-by-a-page in the offset calculation shows up.
        let last = (ph.p_filesz - 1) as usize;
        assert_eq!(
            vm.read(va + last as u64, 1)[0],
            img.bytes[ph.p_offset as usize + last]
        );
    }
}

#[test]
fn bss_tail_is_zeroed_and_file_bytes_do_not_leak() {
    let mut vm = FakeVm::new();
    let img = ElfBuilder::new().glibc_arm64_style().build();
    let l = load_fixture(&mut vm, &img, 3);
    let e = Image::parse(&mut SliceSource::new(img.as_slice()), 4096, EM_NATIVE).unwrap();

    let data = e
        .loads
        .iter()
        .map(|&i| &e.phdrs[i])
        .find(|p| p.is_write())
        .unwrap();
    let fend = data.p_vaddr + l.plan.bias + data.p_filesz;
    let mend = data.p_vaddr + l.plan.bias + data.p_memsz;

    // Byte just past filesz: in the file this is non-zero (the fixture
    // pattern sets bit 0), so a leak is detectable.
    assert_ne!(img.bytes[(data.p_offset + data.p_filesz) as usize], 0);
    assert_eq!(vm.read(fend, 1)[0], 0, "file bytes leaked past p_filesz");
    assert_eq!(vm.read(mend - 1, 1)[0], 0, "end of .bss is not zero");
}

#[test]
fn final_protections_match_the_segment_flags() {
    let mut vm = FakeVm::new();
    let img = ElfBuilder::new().four_segment_separate_code().build();
    let l = load_fixture(&mut vm, &img, 3);
    let e = Image::parse(&mut SliceSource::new(img.as_slice()), 4096, EM_NATIVE).unwrap();

    for &i in &e.loads {
        let ph = &e.phdrs[i];
        let va = ph.p_vaddr + l.plan.bias;
        let want = prot_of(ph);
        assert_eq!(vm.prot_at(va), want, "segment {i} protection");
    }

    // No writable page is also executable, and vice versa.
    for (a, len, prot) in vm.regions() {
        assert!(
            prot & PROT_WRITE == 0 || prot & PROT_EXEC == 0,
            "{a:#x}+{len:#x} is both writable and executable ({prot:#x})"
        );
    }
}

#[test]
fn gaps_between_segments_stay_inaccessible() {
    let mut vm = FakeVm::new();
    let img = ElfBuilder::new().glibc_arm64_style().build();
    let l = load_fixture(&mut vm, &img, 3);
    let e = Image::parse(&mut SliceSource::new(img.as_slice()), 4096, EM_NATIVE).unwrap();

    // The 64 KiB hole between glibc's code and data segments.
    let code = e.loads.iter().map(|&i| &e.phdrs[i]).next().unwrap();
    let gap = align_up(code.p_vaddr + code.p_memsz, 4096).unwrap() + l.plan.bias;
    assert!(vm.is_mapped(gap));
    assert_eq!(vm.prot_at(gap), PROT_NONE, "the gap should be unreadable");
}

#[test]
fn non_pie_loads_at_its_link_address() {
    let mut vm = FakeVm::new();
    let img = ElfBuilder::new().non_pie().build();
    let l = load_fixture(&mut vm, &img, 3);
    assert_eq!(l.plan.bias, 0);
    assert_eq!(l.plan.base, 0x400000);
    assert_eq!(l.plan.entry, 0x400500);
    assert_eq!(vm.read(0x400000, 4), ELFMAG);
}

#[test]
fn read_only_segment_is_narrowed_after_zeroing() {
    let mut vm = FakeVm::new();
    let img = ElfBuilder::new()
        .pie_two_segment()
        .patch_phdr(0, |p| {
            p.p_flags = PF_R | PF_X;
            p.p_filesz = 0xf00;
            p.p_memsz = 0xf00;
        })
        .build();
    let l = load_fixture(&mut vm, &img, 3);
    let va = l.plan.base;
    // Written while writable, then narrowed: no W left, and the tail of
    // the page is clear.
    assert_eq!(vm.prot_at(va), PROT_READ | PROT_EXEC);
    assert_eq!(vm.read(va + 0xf00, 1)[0], 0);
    assert!(vm
        .ops()
        .iter()
        .any(|o| matches!(o, Op::Protect { prot, .. } if *prot == PROT_READ | PROT_EXEC)));
}

#[test]
fn copy_path_loads_and_syncs_the_icache() {
    // No file mappings: the loader writes the bytes itself, so it owes
    // instruction-cache maintenance for the executable segments.
    let mut vm = FakeVm::new().no_files();
    let img = ElfBuilder::new().pie_two_segment().build();
    let e = Image::parse(&mut SliceSource::new(img.as_slice()), 4096, EM_NATIVE).unwrap();
    let l = load("test", &e, &mut SliceSource::new(img.as_slice()), None, &mut vm).unwrap();

    assert_eq!(vm.read(l.plan.base, 4), ELFMAG);
    let syncs: Vec<_> = vm
        .ops()
        .into_iter()
        .filter(|o| matches!(o, Op::Icache { .. }))
        .collect();
    assert!(!syncs.is_empty(), "executable segment was not synced");
    match syncs[0] {
        Op::Icache { addr, len } => {
            assert!(addr <= l.plan.base);
            assert!(addr + len >= l.plan.base + 0x1000);
        }
        _ => unreachable!(),
    }
}

#[test]
fn copy_path_refuses_non_pie() {
    let mut vm = FakeVm::new().no_files();
    let img = ElfBuilder::new().non_pie().build();
    let e = Image::parse(&mut SliceSource::new(img.as_slice()), 4096, EM_NATIVE).unwrap();
    assert_eq!(
        load("test", &e, &mut SliceSource::new(img.as_slice()), None, &mut vm).unwrap_err(),
        Error(ENOTSUP)
    );
}

#[test]
fn unload_releases_the_whole_reservation() {
    let mut vm = FakeVm::new();
    let img = ElfBuilder::new().glibc_arm64_style().build();
    let l = load_fixture(&mut vm, &img, 3);
    let span = (l.plan.reserve_addr, l.plan.reserve_len);
    l.unload(&mut vm);
    for a in (span.0..span.0 + span.1).step_by(4096) {
        assert!(!vm.is_mapped(a), "{a:#x} survived unload");
    }
    // ...and the space is reusable.
    assert_eq!(vm.would_place(0x1000), 0x1000_0000);
}

#[test]
fn two_images_do_not_overlap() {
    // Program then interpreter, the real sequence.
    let mut vm = FakeVm::new();
    let prog = ElfBuilder::new().glibc_arm64_style().build();
    let interp = ElfBuilder::new().glibc_arm64_style().build();
    let a = load_fixture(&mut vm, &prog, 3);
    let b = load_fixture(&mut vm, &interp, 4);

    let (a0, a1) = (a.plan.reserve_addr, a.plan.reserve_addr + a.plan.reserve_len);
    let (b0, b1) = (b.plan.reserve_addr, b.plan.reserve_addr + b.plan.reserve_len);
    assert!(a1 <= b0 || b1 <= a0, "images overlap: {a0:#x}..{a1:#x} and {b0:#x}..{b1:#x}");
}

#[test]
fn a_failed_load_leaves_nothing_behind() {
    let mut vm = FakeVm::new();
    let img = ElfBuilder::new().glibc_arm64_style().build();
    let e = Image::parse(&mut SliceSource::new(img.as_slice()), 4096, EM_NATIVE).unwrap();

    // Parse from the whole image but read contents from a truncated copy,
    // so the load fails partway through with the reservation already held.
    let short = img.bytes[..0x100].to_vec();
    assert!(load("test", &e, &mut SliceSource::new(short.as_slice()), None, &mut vm).is_err());

    // Whatever happened, no region may be left behind.
    assert!(
        vm.regions().is_empty(),
        "leaked mappings: {:#x?}",
        vm.regions()
    );
}

// --- stacks --------------------------------------------------------------

/// Read back a laid-out stack the way a libc start-up would.
struct Parsed {
    argv: Vec<Vec<u8>>,
    envp: Vec<Vec<u8>>,
    auxv: Vec<(u64, u64)>,
}

fn read_stack(s: &FakeStack, sp: u64) -> Parsed {
    let argc = s.u64_at(sp) as usize;
    let mut at = sp + 8;
    let mut argv = Vec::new();
    for _ in 0..argc {
        argv.push(s.cstr_at(s.u64_at(at)));
        at += 8;
    }
    assert_eq!(s.u64_at(at), 0, "argv is not NULL-terminated");
    at += 8;

    let mut envp = Vec::new();
    while s.u64_at(at) != 0 {
        envp.push(s.cstr_at(s.u64_at(at)));
        at += 8;
    }
    at += 8;

    let mut auxv = Vec::new();
    loop {
        let k = s.u64_at(at);
        let v = s.u64_at(at + 8);
        at += 16;
        if k == AT_NULL {
            break;
        }
        auxv.push((k, v));
    }
    Parsed { argv, envp, auxv }
}

fn get(p: &Parsed, key: u64) -> Option<u64> {
    p.auxv.iter().find(|(k, _)| *k == key).map(|(_, v)| *v)
}

fn spec() -> AuxvSpec<'static> {
    AuxvSpec {
        phdr: Some(0x1000_0040),
        phent: 56,
        phnum: 9,
        base: 0x2000_0000,
        entry: 0x1000_7930,
        pagesz: 4096,
        uid: 0,
        gid: 0,
        hwcap: 0x3,
        hwcap2: 0,
        clktck: 100,
        secure: false,
        random: *b"0123456789abcdef",
        platform: b"aarch64",
        execfn: b"/usr/bin/node",
        sysinfo_ehdr: None,
        minsigstksz: Some(6144),
        ..Default::default()
    }
}

#[test]
fn round_trips_argv_envp_and_auxv() {
    let mut s = FakeStack::new(0x7000_0000, 64 * 1024);
    let argv: &[&[u8]] = &[b"/usr/bin/node", b"/usr/src/server.js"];
    let envp: &[&[u8]] = &[b"PATH=/usr/bin:/bin", b"HOME=/", b"PWD=/"];
    let l = build_stack(&mut s, argv, envp, &spec()).unwrap();

    let p = read_stack(&s, l.sp);
    assert_eq!(p.argv, vec![b"/usr/bin/node".to_vec(), b"/usr/src/server.js".to_vec()]);
    assert_eq!(
        p.envp,
        vec![
            b"PATH=/usr/bin:/bin".to_vec(),
            b"HOME=/".to_vec(),
            b"PWD=/".to_vec()
        ]
    );
    assert_eq!(get(&p, AT_PHDR), Some(0x1000_0040));
    assert_eq!(get(&p, AT_PHENT), Some(56));
    assert_eq!(get(&p, AT_PHNUM), Some(9));
    assert_eq!(get(&p, AT_BASE), Some(0x2000_0000));
    assert_eq!(get(&p, AT_ENTRY), Some(0x1000_7930));
    assert_eq!(get(&p, AT_PAGESZ), Some(4096));
    assert_eq!(get(&p, AT_CLKTCK), Some(100));
    assert_eq!(get(&p, AT_SECURE), Some(0));
    assert_eq!(get(&p, AT_MINSIGSTKSZ), Some(6144));
}

#[test]
fn sp_is_sixteen_byte_aligned_for_every_shape() {
    // AAPCS64 and the x86-64 psABI both require it at the entry point, and
    // it is easy to get wrong by one pointer.
    for na in 0..8usize {
        for ne in 0..8usize {
            let mut s = FakeStack::new(0x7000_0000, 64 * 1024);
            let args: Vec<Vec<u8>> =
                (0..na).map(|i| format!("arg{i}").into_bytes()).collect();
            let envs: Vec<Vec<u8>> =
                (0..ne).map(|i| format!("E{i}=v").into_bytes()).collect();
            let argv: Vec<&[u8]> = args.iter().map(|v| v.as_slice()).collect();
            let envp: Vec<&[u8]> = envs.iter().map(|v| v.as_slice()).collect();
            let l = build_stack(&mut s, &argv, &envp, &spec()).unwrap();
            assert_eq!(l.sp % 16, 0, "argc={na} envc={ne} gave sp={:#x}", l.sp);
            assert_eq!(read_stack(&s, l.sp).argv.len(), na);
        }
    }
}

#[test]
fn at_random_points_at_sixteen_readable_bytes_on_the_stack() {
    // Not at something that may be gone by the time the application reads
    // it: the canary would come from a dead stack frame.
    let mut s = FakeStack::new(0x7000_0000, 64 * 1024);
    let argv: &[&[u8]] = &[b"prog"];
    let l = build_stack(&mut s, argv, &[], &spec()).unwrap();
    let p = read_stack(&s, l.sp);
    let at = get(&p, AT_RANDOM).unwrap();
    assert!(at >= l.sp && at < s.top(), "AT_RANDOM is not on the stack");
    assert_eq!(s.read(at, 16), b"0123456789abcdef");
}

#[test]
fn platform_and_execfn_are_copied_onto_the_stack() {
    let mut s = FakeStack::new(0x7000_0000, 64 * 1024);
    let argv: &[&[u8]] = &[b"prog"];
    let l = build_stack(&mut s, argv, &[], &spec()).unwrap();
    let p = read_stack(&s, l.sp);
    let plat = get(&p, AT_PLATFORM).unwrap();
    let execfn = get(&p, AT_EXECFN).unwrap();
    for a in [plat, execfn] {
        assert!(a >= l.sp && a < s.top(), "{a:#x} is not on the stack");
    }
    assert_eq!(s.cstr_at(plat), b"aarch64");
    assert_eq!(s.cstr_at(execfn), b"/usr/bin/node");
}

#[test]
fn strings_are_nul_terminated_including_empty_ones() {
    let mut s = FakeStack::new(0x7000_0000, 64 * 1024);
    let argv: &[&[u8]] = &[b"prog", b"", b"x"];
    let envp: &[&[u8]] = &[b""];
    let l = build_stack(&mut s, argv, envp, &spec()).unwrap();
    let p = read_stack(&s, l.sp);
    assert_eq!(p.argv, vec![b"prog".to_vec(), Vec::new(), b"x".to_vec()]);
    assert_eq!(p.envp, vec![Vec::new()]);
}

#[test]
fn no_auxv_entry_is_duplicated() {
    let mut s = FakeStack::new(0x7000_0000, 64 * 1024);
    let l = build_stack(&mut s, &[b"p"], &[], &spec()).unwrap();
    let p = read_stack(&s, l.sp);
    let mut keys: Vec<u64> = p.auxv.iter().map(|(k, _)| *k).collect();
    keys.sort();
    let n = keys.len();
    keys.dedup();
    assert_eq!(keys.len(), n, "duplicate auxv keys");
}

#[test]
fn omits_phdr_entries_when_the_headers_are_not_mapped() {
    let mut s = FakeStack::new(0x7000_0000, 64 * 1024);
    let mut sp = spec();
    sp.phdr = None;
    let l = build_stack(&mut s, &[b"p"], &[], &sp).unwrap();
    let p = read_stack(&s, l.sp);
    // Better to say nothing than to claim AT_PHDR is 0: musl treats a
    // present-but-null AT_PHDR as a valid pointer.
    assert_eq!(get(&p, AT_PHDR), None);
    assert_eq!(get(&p, AT_PHENT), None);
    assert_eq!(get(&p, AT_PHNUM), None);
}

#[test]
fn oversized_environment_is_rejected_not_overflowed() {
    let mut s = FakeStack::new(0x7000_0000, 16 * 1024);
    let big = vec![b'x'; 32 * 1024];
    let envs: Vec<&[u8]> = vec![big.as_slice()];
    assert_eq!(
        build_stack(&mut s, &[b"p"], &envs, &spec()).unwrap_err(),
        Error(E2BIG)
    );
}

#[test]
fn a_stack_that_is_merely_tight_still_fails_cleanly() {
    // Under the size check but too small once pointers and auxv are added.
    let mut s = FakeStack::new(0x7000_0000, 4096);
    let envs: Vec<Vec<u8>> = (0..200).map(|i| format!("VAR{i}=0123456789").into_bytes()).collect();
    let envp: Vec<&[u8]> = envs.iter().map(|v| v.as_slice()).collect();
    match build_stack(&mut s, &[b"p"], &envp, &spec()) {
        Err(Error(E2BIG)) => {}
        Err(e) => panic!("unexpected error {}", e.as_str()),
        Ok(_) => panic!("should not have fitted"),
    }
}

#[test]
fn everything_written_stays_inside_the_stack() {
    let mut s = FakeStack::new(0x7000_0000, 64 * 1024);
    let argv: &[&[u8]] = &[b"/usr/bin/node", b"/usr/src/server.js"];
    let envp: &[&[u8]] = &[b"PATH=/usr/bin", b"HOME=/"];
    let l = build_stack(&mut s, argv, envp, &spec()).unwrap();
    assert!(s.low >= s.bottom());
    assert_eq!(s.low, l.sp, "sp should be the low-water mark");
}

#[test]
fn size_check_counts_terminators_and_pointers() {
    // A large number of very short variables: the strings are a small
    // fraction of what actually gets written, because each one also costs a
    // NUL and an eight-byte pointer.
    const N: usize = 110_000;
    const STACK: u64 = 4 * 1024 * 1024; // budget = 1 MiB
    let many: Vec<Vec<u8>> = (0..N).map(|_| b"a".to_vec()).collect();
    let v: Vec<&[u8]> = many.iter().map(|s| s.as_slice()).collect();

    let strlen_only: usize = v.iter().map(|s| s.len()).sum();
    assert!(
        (strlen_only as u64) < STACK / 4,
        "the strlen-only sum must be under budget for this to prove anything"
    );
    assert_eq!(check_arg_env_size(&v, &[], STACK).unwrap_err(), Error(E2BIG));

    // The floor is ARG_MAX, so a small stack does not make the limit
    // absurdly tight -- that is the policy `execve(2)` describes.
    assert!(check_arg_env_size(&[b"prog"], &[b"HOME=/"], 8 * 1024).is_ok());
}

// --- programs ------------------------------------------------------------

struct FakeFs {
    files: BTreeMap<Vec<u8>, (Vec<u8>, Option<i32>)>,
    /// The paths that were asked for, in order.
    opened: Vec<Vec<u8>>,
}

impl FakeFs {
    fn new() -> Self {
        FakeFs {
            files: BTreeMap::new(),
            opened: Vec::new(),
        }
    }
    /// Add a file that can be mapped through a descriptor.
    fn add(&mut self, vm: &mut FakeVm, path: &[u8], img: &TestImage, fd: i32) {
        self.files
            .insert(path.to_vec(), (img.bytes.clone(), Some(fd)));
        vm.install(fd, img);
    }
}

struct Owned(Vec<u8>);
impl ImageSource for Owned {
    fn read_exact_at(&mut self, off: u64, buf: &mut [u8]) -> Result<(), Error> {
        SliceSource::new(self.0.as_slice()).read_exact_at(off, buf)
    }
    fn size(&self) -> Option<u64> {
        Some(self.0.len() as u64)
    }
}

impl Opener for FakeFs {
    fn open(&mut self, path: &[u8]) -> Result<Opened, Error> {
        self.opened.push(path.to_vec());
        // A file without a descriptor drives the loader down its copy path.
        match self.files.get(path) {
            Some((data, fd)) => Ok(Opened {
                src: Box::new(Owned(data.clone())),
                fd: *fd,
            }),
            None => Err(Error(ENOENT)),
        }
    }
}

#[test]
fn dynamic_program_jumps_into_the_interpreter() {
    let mut vm = FakeVm::new();
    let prog = ElfBuilder::new().glibc_arm64_style().build();
    let ld = ElfBuilder::new().pie_two_segment().build();
    let mut fs = FakeFs::new();
    fs.add(&mut vm, b"/usr/bin/node", &prog, 3);
    fs.add(&mut vm, b"/lib/ld-linux-aarch64.so.1", &ld, 4);

    let p = load_program("node", b"/usr/bin/node", &mut fs, &mut vm).unwrap();
    let (_, il) = p.interp.as_ref().unwrap();

    assert_eq!(p.entry(), il.plan.entry, "must enter the interpreter");
    assert_ne!(p.entry(), p.main.plan.entry);
    assert_eq!(p.interp_base(), il.plan.bias);
    assert_eq!(
        p.interp_path.as_deref(),
        Some(b"/lib/ld-linux-aarch64.so.1".as_slice())
    );
}

#[test]
fn at_base_is_the_interpreter_bias_not_its_first_segment() {
    // Give the interpreter a non-zero first p_vaddr. The two numbers then
    // differ, and only the bias is correct.
    let mut vm = FakeVm::new();
    let prog = ElfBuilder::new().glibc_arm64_style().build();
    let ld = ElfBuilder::new()
        .pie_two_segment()
        .patch_phdr(0, |p| {
            p.p_offset = 0x1000;
            p.p_vaddr = 0x1000;
        })
        .patch_phdr(1, |p| {
            p.p_offset = 0x2000;
            p.p_vaddr = 0x3000;
        })
        .build();
    let mut fs = FakeFs::new();
    fs.add(&mut vm, b"/usr/bin/node", &prog, 3);
    fs.add(&mut vm, b"/lib/ld-linux-aarch64.so.1", &ld, 4);

    let p = load_program("node", b"/usr/bin/node", &mut fs, &mut vm).unwrap();
    let (_, il) = p.interp.as_ref().unwrap();
    assert_ne!(
        il.plan.bias, il.plan.base,
        "fixture should have a non-zero first p_vaddr"
    );
    assert_eq!(p.interp_base(), il.plan.bias);
}

#[test]
fn program_and_interpreter_do_not_overlap() {
    let mut vm = FakeVm::new();
    let prog = ElfBuilder::new().glibc_arm64_style().build();
    let ld = ElfBuilder::new().glibc_arm64_style().no_interp().build();
    let mut fs = FakeFs::new();
    fs.add(&mut vm, b"/usr/bin/node", &prog, 3);
    fs.add(&mut vm, b"/lib/ld-linux-aarch64.so.1", &ld, 4);

    let p = load_program("node", b"/usr/bin/node", &mut fs, &mut vm).unwrap();
    let (_, il) = p.interp.as_ref().unwrap();
    let a = (
        p.main.plan.reserve_addr,
        p.main.plan.reserve_addr + p.main.plan.reserve_len,
    );
    let b = (
        il.plan.reserve_addr,
        il.plan.reserve_addr + il.plan.reserve_len,
    );
    assert!(a.1 <= b.0 || b.1 <= a.0, "{a:#x?} overlaps {b:#x?}");
}

#[test]
fn auxv_describes_the_program_not_the_interpreter() {
    let mut vm = FakeVm::new();
    let prog = ElfBuilder::new().glibc_arm64_style().build();
    let ld = ElfBuilder::new().pie_two_segment().build();
    let mut fs = FakeFs::new();
    fs.add(&mut vm, b"/usr/bin/node", &prog, 3);
    fs.add(&mut vm, b"/lib/ld-linux-aarch64.so.1", &ld, 4);
    let p = load_program("node", b"/usr/bin/node", &mut fs, &mut vm).unwrap();

    let a = p.auxv(&Environment {
        page_size: 4096,
        platform: b"aarch64",
        execfn: b"/usr/bin/node",
        random: [7u8; 16],
        uid: 0,
        gid: 0,
        hwcap: (0, 0),
        sysinfo_ehdr: None,
        machine: EM_NATIVE,
    });
    // AT_ENTRY is the *program's* entry even though control starts in the
    // interpreter; ld.so uses it to find the executable it is loading for.
    assert_eq!(a.entry, p.main.plan.entry);
    assert_eq!(a.base, p.interp_base());
    assert_eq!(a.phnum, p.image.ehdr.e_phnum as u64);
    assert_eq!(a.phdr, Some(p.main.plan.phdr_addr(&p.image).unwrap()));

    // And the numbers survive a round trip through a real stack.
    let mut st = FakeStack::new(0x7000_0000, 64 * 1024);
    let l = build_stack(&mut st, &[b"node"], &[], &a).unwrap();
    assert_eq!(st.auxv_value(l.sp, AT_ENTRY), Some(p.main.plan.entry));
    assert_eq!(st.auxv_value(l.sp, AT_BASE), Some(p.interp_base()));
    assert_eq!(
        st.auxv_value(l.sp, AT_PHDR),
        Some(p.main.plan.phdr_addr(&p.image).unwrap())
    );
}

#[test]
fn a_static_program_needs_no_interpreter() {
    let mut vm = FakeVm::new();
    let prog = ElfBuilder::new().pie_two_segment().build();
    let mut fs = FakeFs::new();
    fs.add(&mut vm, b"/bin/hello", &prog, 3);
    let p = load_program("hello", b"/bin/hello", &mut fs, &mut vm).unwrap();
    assert!(p.interp.is_none());
    assert_eq!(p.entry(), p.main.plan.entry);
    assert_eq!(p.interp_base(), 0);
}

#[test]
fn a_missing_interpreter_unloads_the_program() {
    let mut vm = FakeVm::new();
    let prog = ElfBuilder::new().glibc_arm64_style().build();
    let mut fs = FakeFs::new();
    fs.add(&mut vm, b"/usr/bin/node", &prog, 3);
    assert_eq!(
        load_program("node", b"/usr/bin/node", &mut fs, &mut vm).unwrap_err(),
        Error(ENOENT)
    );
    assert!(
        vm.regions().is_empty(),
        "the program stayed mapped after the interpreter failed: {:#x?}",
        vm.regions()
    );
}

#[test]
fn an_interpreter_that_is_not_pie_is_refused() {
    let mut vm = FakeVm::new();
    let prog = ElfBuilder::new().glibc_arm64_style().build();
    let ld = ElfBuilder::new().non_pie().build();
    let mut fs = FakeFs::new();
    fs.add(&mut vm, b"/usr/bin/node", &prog, 3);
    fs.add(&mut vm, b"/lib/ld-linux-aarch64.so.1", &ld, 4);
    assert_eq!(
        load_program("node", b"/usr/bin/node", &mut fs, &mut vm).unwrap_err(),
        Error(ENOEXEC)
    );
    assert!(vm.regions().is_empty());
}

#[test]
fn an_executable_stack_request_is_refused() {
    let mut vm = FakeVm::new();
    let prog = ElfBuilder::new().pie_two_segment().exec_stack().build();
    let mut fs = FakeFs::new();
    fs.add(&mut vm, b"/bin/trampoline", &prog, 3);
    assert_eq!(
        load_program("t", b"/bin/trampoline", &mut fs, &mut vm).unwrap_err(),
        Error(ENOTSUP)
    );
    assert!(vm.regions().is_empty());
}

#[test]
fn a_non_pie_program_loads_at_its_link_address() {
    let mut vm = FakeVm::new();
    let prog = ElfBuilder::new().non_pie().build();
    let mut fs = FakeFs::new();
    fs.add(&mut vm, b"/bin/static", &prog, 3);
    let p = load_program("static", b"/bin/static", &mut fs, &mut vm).unwrap();
    assert_eq!(p.main.plan.bias, 0);
    assert_eq!(p.main.plan.base, 0x400000);
    assert_eq!(p.entry(), 0x400500);

    let a = p.auxv(&Environment {
        page_size: 4096,
        platform: b"x86_64",
        execfn: b"/bin/static",
        random: [0; 16],
        uid: 0,
        gid: 0,
        hwcap: (0, 0),
        sysinfo_ehdr: None,
        machine: EM_NATIVE,
    });
    // With a zero bias, AT_PHDR is just the link-time address.
    assert_eq!(a.phdr, Some(0x400000 + p.image.ehdr.e_phoff));
    assert_eq!(a.base, 0);
}

#[test]
fn a_bad_program_is_not_loaded_at_all() {
    let mut vm = FakeVm::new();
    let mut fs = FakeFs::new();
    let junk = TestImage {
        bytes: vec![0x41; 4096],
    };
    fs.files
        .insert(b"/bin/junk".to_vec(), (junk.bytes.clone(), None));
    assert_eq!(
        load_program("junk", b"/bin/junk", &mut fs, &mut vm).unwrap_err(),
        Error(ENOEXEC)
    );
    assert!(vm.regions().is_empty());
}

// --- further cases -------------------------------------------------------

/// Overwrite bytes of an image.
fn poke(img: &mut TestImage, off: usize, bytes: &[u8]) {
    img.bytes[off..off + bytes.len()].copy_from_slice(bytes);
}

fn rejection(img: &TestImage) -> Reject {
    Image::parse(&mut SliceSource::new(img.as_slice()), 4096, EM_NATIVE).unwrap_err()
}

#[test]
fn every_header_fault_has_its_own_reason() {
    let cases: Vec<(usize, Vec<u8>, Reject)> = vec![
        (0, vec![0x7e], Reject::NotElf),
        (4, vec![1], Reject::NotElf),
        (5, vec![2], Reject::NotElf),
        (6, vec![0], Reject::NotElf),
        (7, vec![9], Reject::Unsupported("unsupported ELF OS ABI")),
        (18, vec![8, 0], Reject::Unsupported("ELF machine type mismatch")),
        (16, vec![1, 0], Reject::Unsupported("ELF is neither ET_DYN nor ET_EXEC")),
        (20, vec![2], Reject::Malformed("unsupported ELF version")),
        (56, vec![0xff, 0xff], Reject::Unsupported("PN_XNUM program header count")),
        (56, vec![0, 0], Reject::Malformed("no program headers")),
        (56, vec![0xff, 0x7f], Reject::Malformed("implausible program header count")),
        (54, vec![55, 0], Reject::Malformed("program header entry too small")),
        (32, vec![0xff; 8], Reject::Malformed("program header table overflows")),
        (36, vec![1], Reject::Malformed("program header table past end of file")),
    ];
    for (off, bytes, want) in cases {
        let mut img = ElfBuilder::new().pie_two_segment().build();
        poke(&mut img, off, &bytes);
        assert_eq!(rejection(&img), want, "at offset {off}");
    }
}

#[test]
fn every_segment_fault_has_its_own_reason() {
    let cases: Vec<(fn(&mut Phdr), &'static str)> = vec![
        (|p| p.p_memsz = 1, "PT_LOAD filesz exceeds memsz"),
        (|p| p.p_align = 3, "PT_LOAD alignment is not a power of two"),
        (|p| p.p_vaddr = u64::MAX, "PT_LOAD vaddr+memsz overflows"),
        (
            |p| {
                p.p_filesz = 1 << 40;
                p.p_memsz = 1 << 40;
            },
            "PT_LOAD extends past end of file",
        ),
        (|p| p.p_vaddr += 1, "PT_LOAD vaddr and offset are not page-congruent"),
        (|p| p.p_memsz = 0x2001, "overlapping PT_LOAD segments"),
    ];
    for (f, want) in cases {
        let img = ElfBuilder::new().pie_two_segment().patch_phdr(0, f).build();
        assert_eq!(rejection(&img).as_str(), want);
    }
    let img = ElfBuilder::new()
        .pie_two_segment()
        .patch_phdr(0, |p| p.p_type = PT_DYNAMIC)
        .patch_phdr(1, |p| p.p_type = PT_DYNAMIC)
        .build();
    assert_eq!(rejection(&img), Reject::Malformed("no PT_LOAD segments"));
}

#[test]
fn a_segment_offset_that_overflows_is_rejected() {
    let mut img = ElfBuilder::new().pie_two_segment().build();
    poke(&mut img, 64 + 56 + 8, &[0xff; 8]);
    assert_eq!(
        rejection(&img),
        Reject::Malformed("PT_LOAD offset+filesz overflows")
    );
}

#[test]
fn rejections_become_errno_values() {
    assert_eq!(Error::from(Reject::NotElf), Error(ENOEXEC));
    assert_eq!(Error::from(Reject::Malformed("x")), Error(ENOEXEC));
    assert_eq!(Error::from(Reject::Unsupported("x")), Error(ENOTSUP));
    assert_eq!(Reject::NotElf.as_str(), "not an ELF64 little-endian image");
}

#[test]
fn headers_decode_field_by_field() {
    let img = ElfBuilder::new().glibc_arm64_style().build();
    let e = Ehdr::parse(&img.bytes).unwrap();
    assert_eq!(e.e_type, ET_DYN);
    assert_eq!(e.e_machine, EM_NATIVE);
    assert_eq!(e.e_entry, 0x7930);
    assert_eq!(e.e_phoff, 64);
    assert_eq!(e.e_phnum, 7);
    assert_eq!(e.e_phentsize, 56);
    assert_eq!(Ehdr::parse(&img.bytes[..63]).unwrap_err(), Error(ENOEXEC));
    let ph = Phdr::parse(&img.bytes[64 + 3 * 56..]).unwrap();
    assert_eq!(ph.p_type, PT_LOAD);
    assert_eq!(ph.p_flags, PF_R | PF_W);
    assert_eq!(ph.p_offset, 0x1cdc0);
    assert_eq!(ph.p_vaddr, 0x2cdc0);
    assert_eq!(ph.p_filesz, 0x4908);
    assert_eq!(ph.p_memsz, 0x112a0);
    assert_eq!(ph.p_align, 0x10000);
    assert_eq!(ph.flag_str(), *b"rw-");
    assert!(ph.is_read() && ph.is_write() && !ph.is_exec());
    assert_eq!(Phdr::parse(&img.bytes[..55]).unwrap_err(), Error(ENOEXEC));
}

#[test]
fn memory_for_headers_and_paths_is_asked_for() {
    let img = ElfBuilder::new().glibc_arm64_style().build();
    let mut src = SliceSource::new(img.as_slice());
    let e = Ehdr::parse(&img.bytes).unwrap();
    assert_eq!(
        Image::parse_table(&mut src, 4096, EM_NATIVE, e, None).unwrap_err(),
        Reject::Malformed("out of memory reading program headers")
    );
    let e = Ehdr::parse(&img.bytes).unwrap();
    let i = Image::parse_table(&mut src, 4096, EM_NATIVE, e, Some(Vec::new())).unwrap();
    assert_eq!(i.phdrs.len(), 7);
    assert_eq!(
        i.interp_path_in(&mut SliceSource::new(img.as_slice()), None).unwrap_err(),
        Error(ENOMEM)
    );
    assert_eq!(
        i.interp_path_in(&mut SliceSource::new(img.as_slice()), Some(Vec::new())).unwrap(),
        b"/lib/ld-linux-aarch64.so.1"
    );
    let j = Image::parse(
        &mut SliceSource::new(ElfBuilder::new().pie_two_segment().build().as_slice()),
        4096,
        EM_NATIVE,
    )
    .unwrap();
    assert_eq!(j.interp_path(&mut SliceSource::new(img.as_slice())).unwrap_err(), Error(EINVAL));
}

#[test]
fn an_empty_interpreter_path_is_refused() {
    let mut img = ElfBuilder::new().glibc_arm64_style().build();
    let i = Image::parse(&mut SliceSource::new(img.as_slice()), 4096, EM_NATIVE).unwrap();
    img.bytes[0x200] = 0;
    assert_eq!(i.interp_path(&mut SliceSource::new(img.as_slice())).unwrap_err(), Error(ENOEXEC));
    img.bytes.truncate(0x201);
    assert_eq!(i.interp_path(&mut SliceSource::new(img.as_slice())).unwrap_err(), Error(ENOEXEC));
}

#[test]
fn alignment_demands_are_capped_and_floored() {
    let img = parse_image(
        &ElfBuilder::new()
            .pie_two_segment()
            .patch_phdr(0, |p| p.p_align = 0x40_0000)
            .build(),
    );
    assert_eq!(img.load_align(4096), 0x40_0000);
    assert_eq!(seg_align(&img, 4096), MAX_SEG_ALIGN);
    assert_eq!(
        reservation_len(&img, 4096).unwrap(),
        0x4000 + MAX_SEG_ALIGN - 0x1000
    );
    let img = parse_image(
        &ElfBuilder::new()
            .pie_two_segment()
            .patch_phdr(0, |p| p.p_align = 0)
            .build(),
    );
    assert_eq!(seg_align(&img, 4096), 4096);
    assert_eq!(seg_align(&img, 0x10000), 0x10000);
}

#[test]
fn an_image_that_cannot_be_placed_has_no_plan() {
    let img = parse_image(&ElfBuilder::new().pie_two_segment().build());
    // No aligned base at or above the reservation.
    assert_eq!(
        plan(&img, 4096, Placement::At(u64::MAX)).unwrap_err(),
        Error(ENOMEM)
    );
    // An aligned base, but the image runs past the highest address.
    assert_eq!(
        plan(&img, 4096, Placement::At(u64::MAX - 0xfff)).unwrap_err(),
        Error(ENOMEM)
    );
    // A base below the lowest linked address.
    let high = parse_image(&ElfBuilder::new().non_pie().build());
    assert_eq!(
        plan(&high, 4096, Placement::At(0x1000)).unwrap_err(),
        Error(ENOMEM)
    );
    // No memory for the list of segments.
    assert_eq!(
        plan_into(&img, 4096, Placement::At(0x1000_0000), None).unwrap_err(),
        Error(ENOMEM)
    );
    assert!(plan_into(&img, 4096, Placement::At(0x1000_0000), Some(Vec::new())).is_ok());
}

#[test]
fn a_plan_has_exact_numbers() {
    let img = parse_image(&ElfBuilder::new().unaligned_second_segment().build());
    let p = plan(&img, 4096, Placement::At(0x2000_0000)).unwrap();
    assert_eq!(p.reserve_addr, 0x2000_0000);
    assert_eq!(p.reserve_len, 0x3000);
    assert_eq!((p.base, p.end), (0x2000_0000, 0x2000_3000));
    assert_eq!(p.entry, 0x2000_0400);
    let s = &p.segments[1];
    let f = s.file.unwrap();
    assert_eq!((f.addr, f.len, f.off), (0x2000_2000, 0x1000, 0x1000));
    let z = s.zero.unwrap();
    assert_eq!((z.addr, z.len), (0x2000_2734, 0x8cc));
    assert!(s.anon.is_none());
    assert!(!s.needs_write_window);
    assert_eq!(s.range(), (0x2000_2000, 0x2000_3000));
}

#[test]
fn a_segment_that_is_all_bss_is_anonymous() {
    let img = parse_image(
        &ElfBuilder::new()
            .pie_two_segment()
            .patch_phdr(1, |p| p.p_filesz = 0)
            .build(),
    );
    let p = plan(&img, 4096, Placement::At(0x2000_0000)).unwrap();
    let s = &p.segments[1];
    assert!(s.file.is_none() && s.zero.is_none());
    let a = s.anon.unwrap();
    assert_eq!((a.addr, a.len), (0x2000_2000, 0x2000));
}

#[test]
fn headers_that_are_not_mapped_have_no_address() {
    let unmapped = parse_image(
        &ElfBuilder::new()
            .pie_two_segment()
            .patch_phdr(0, |p| {
                p.p_offset = 0x1000;
                p.p_vaddr = 0x1000;
            })
            .patch_phdr(1, |p| {
                p.p_offset = 0x2000;
                p.p_vaddr = 0x3000;
            })
            .build(),
    );
    let p = plan(&unmapped, 4096, Placement::At(0x1000_0000)).unwrap();
    assert_eq!(p.phdr_addr(&unmapped), None);

    // A stale PT_PHDR outside the image is not believed.
    let stale = parse_image(
        &ElfBuilder::new()
            .glibc_arm64_style()
            .patch_phdr(0, |p| p.p_vaddr = 0x100_0000)
            .build(),
    );
    let p = plan(&stale, 4096, Placement::At(0x1000_0000)).unwrap();
    assert_eq!(p.phdr_addr(&stale), Some(0x1000_0040));
}

/// Move the program header table of an image behind everything else in it.
fn move_headers_to_the_end(img: &mut TestImage) {
    let at = img.bytes.len() as u64;
    let table = img.bytes[EHDR_SIZE..EHDR_SIZE + 7 * PHDR_SIZE].to_vec();
    img.bytes.extend_from_slice(&table);
    img.bytes[32..40].copy_from_slice(&at.to_le_bytes());
}

#[test]
fn a_stale_pt_phdr_between_segments_is_not_believed() {
    // The gap of a glibc-style image lies inside the image, but in no segment:
    // where the table is in the file decides.
    let build = || {
        ElfBuilder::new()
            .glibc_arm64_style()
            .patch_phdr(0, |p| p.p_vaddr = 0x20000)
            .build()
    };
    let gap = parse_image(&build());
    let p = plan(&gap, 4096, Placement::At(0x1000_0000)).unwrap();
    assert_eq!(gap.phdr_seg.unwrap().p_vaddr, 0x20000);
    assert!(p.base < 0x1002_0000 && 0x1002_0000 < p.end);
    for s in &p.segments {
        let (a, b) = s.range();
        assert!(0x1002_0000 < a || b <= 0x1002_0000);
    }
    assert_eq!(p.phdr_addr(&gap), Some(0x1000_0040));

    // With the table in no segment either, there is no address to give.
    let mut moved = build();
    move_headers_to_the_end(&mut moved);
    let moved = parse_image(&moved);
    let p = plan(&moved, 4096, Placement::At(0x1000_0000)).unwrap();
    assert_eq!(p.phdr_addr(&moved), None);

    // A PT_PHDR inside a segment is believed wherever the table is in the file.
    let mut valid = ElfBuilder::new().glibc_arm64_style().build();
    move_headers_to_the_end(&mut valid);
    let valid = parse_image(&valid);
    let p = plan(&valid, 4096, Placement::At(0x1000_0000)).unwrap();
    assert_eq!(p.phdr_addr(&valid), Some(0x1000_0040));

    // The first address behind a segment is not in it.
    let mut past = parse_image(&ElfBuilder::new().pie_two_segment().build());
    let first = past.phdrs[past.loads[0]];
    past.phdr_seg = Some(Phdr {
        p_vaddr: first.p_vaddr + first.p_memsz,
        ..first
    });
    let p = plan(&past, 4096, Placement::At(0x1000_0000)).unwrap();
    assert_eq!(p.phdr_addr(&past), Some(past.ehdr.e_phoff + p.bias));
    past.phdr_seg = Some(Phdr {
        p_vaddr: first.p_vaddr + first.p_memsz - 1,
        ..first
    });
    assert_eq!(
        p.phdr_addr(&past),
        Some(first.p_vaddr + first.p_memsz - 1 + p.bias)
    );
    past.phdr_seg = Some(Phdr {
        p_vaddr: u64::MAX,
        ..first
    });
    assert_eq!(p.phdr_addr(&past), None);
}

#[test]
fn a_load_that_fails_anywhere_gives_everything_back() {
    for shape in 0..3 {
        let build = || {
            let b = ElfBuilder::new();
            match shape {
                0 => b.glibc_arm64_style().build(),
                1 => b.non_pie().build(),
                _ => b
                    .pie_two_segment()
                    .patch_phdr(0, |p| {
                        p.p_filesz = 0xf00;
                        p.p_memsz = 0xf00;
                    })
                    .build(),
            }
        };
        let img = build();
        let e = Image::parse(&mut SliceSource::new(img.as_slice()), 4096, EM_NATIVE).unwrap();
        let mut n = 0;
        loop {
            let mut vm = FakeVm::new().failing_after(n);
            vm.install(3, &img);
            match load("test", &e, &mut SliceSource::new(img.as_slice()), Some(3), &mut vm) {
                Ok(l) => {
                    l.unload(&mut vm);
                    assert!(vm.regions().is_empty());
                    break;
                }
                Err(err) => {
                    assert_eq!(err, Error(EIO));
                    assert!(vm.regions().is_empty(), "left behind after {n} calls");
                }
            }
            n += 1;
        }
        assert!(n >= 3, "shape {shape} makes several calls");
    }
}

#[test]
fn a_reservation_that_cannot_be_planned_is_given_back() {
    // Position-independent, but linked high: a low reservation is of no use.
    let mut b = ElfBuilder::new().non_pie();
    b.e_type = ET_DYN;
    let img = b.build();
    let e = Image::parse(&mut SliceSource::new(img.as_slice()), 4096, EM_NATIVE).unwrap();
    let mut vm = FakeVm::new();
    vm.base = 0x1000;
    vm.install(3, &img);
    assert_eq!(
        load("test", &e, &mut SliceSource::new(img.as_slice()), Some(3), &mut vm).unwrap_err(),
        Error(ENOMEM)
    );
    assert!(vm.regions().is_empty());
    assert_eq!(
        vm.ops(),
        vec![
            Op::Mmap {
                addr: 0x1000,
                len: 0x4000,
                prot: PROT_NONE
            },
            Op::Unmap {
                addr: 0x1000,
                len: 0x4000
            },
        ]
    );
}

#[test]
fn a_link_address_that_is_taken_is_not_evicted() {
    let img = ElfBuilder::new().non_pie().build();
    let e = Image::parse(&mut SliceSource::new(img.as_slice()), 4096, EM_NATIVE).unwrap();
    let mut vm = FakeVm::new();
    vm.install(3, &img);
    let taken = vm
        .map(Where::Hint(0x401000), 0x1000, PROT_READ, MapSrc::Anon)
        .unwrap();
    assert_eq!(taken, 0x401000);
    assert_eq!(
        load("test", &e, &mut SliceSource::new(img.as_slice()), Some(3), &mut vm).unwrap_err(),
        Error(ENOMEM)
    );
    assert_eq!(vm.regions(), vec![(0x401000, 0x1000, PROT_READ)]);
}

#[test]
fn exact_placements_stay_inside_the_reservation() {
    let img = ElfBuilder::new().glibc_arm64_style().build();
    let mut vm = FakeVm::new();
    let l = load_fixture(&mut vm, &img, 3);
    let (lo, hi) = (
        l.plan.reserve_addr,
        l.plan.reserve_addr + l.plan.reserve_len,
    );
    for op in vm.ops() {
        if let Op::Mmap { addr, len, .. } = op {
            assert!(addr >= lo && addr + len <= hi);
        }
    }
}

#[test]
fn code_the_loader_writes_is_made_visible_afterwards() {
    // An executable segment with a tail to clear.
    let img = ElfBuilder::new()
        .pie_two_segment()
        .patch_phdr(0, |p| {
            p.p_filesz = 0xf00;
            p.p_memsz = 0xf00;
        })
        .build();
    let mut vm = FakeVm::new();
    let l = load_fixture(&mut vm, &img, 3);
    let ops = vm.ops();
    let cleared = Op::Zero {
        addr: l.plan.base + 0xf00,
        len: 0x100,
    };
    let synced = Op::Icache {
        addr: l.plan.base + 0xf00,
        len: 0x100,
    };
    let i = ops.iter().position(|o| *o == cleared).unwrap();
    let j = ops.iter().position(|o| *o == synced).unwrap();
    assert!(i < j);
}

#[test]
fn the_copy_path_puts_every_byte_in_place() {
    // More than one buffer's worth of file data, and a data segment with a
    // partial first page.
    let img = ElfBuilder::new().glibc_arm64_style().build();
    let e = Image::parse(&mut SliceSource::new(img.as_slice()), 4096, EM_NATIVE).unwrap();
    assert!(e.phdrs[e.loads[0]].p_filesz > COPY_CHUNK as u64);
    let mut vm = FakeVm::new().no_files();
    let l = load("test", &e, &mut SliceSource::new(img.as_slice()), Some(3), &mut vm).unwrap();
    assert!(l.allocated);
    for &i in &e.loads {
        let ph = &e.phdrs[i];
        let va = ph.p_vaddr + l.plan.bias;
        for o in [0, 1, 0xfff, 0x1000, ph.p_filesz / 2, ph.p_filesz - 1] {
            assert_eq!(
                vm.read(va + o, 1)[0],
                img.bytes[(ph.p_offset + o) as usize],
                "segment {i} byte {o:#x}"
            );
        }
        let end = align_up(va + ph.p_memsz, 4096).unwrap();
        let tail = vm.read(va + ph.p_filesz, (end - va - ph.p_filesz) as usize);
        assert!(tail.iter().all(|&b| b == 0), "segment {i} tail");
    }
    l.unload(&mut vm);
    assert!(vm.regions().is_empty());
}

#[test]
fn a_failing_protect_is_fatal_only_where_pages_were_written() {
    let img = ElfBuilder::new().pie_two_segment().build();
    let e = Image::parse(&mut SliceSource::new(img.as_slice()), 4096, EM_NATIVE).unwrap();
    // Copying: two zero calls succeed, the protects fail, the load goes on.
    let mut vm = FakeVm::new().no_files().failing_after(2);
    assert!(load("test", &e, &mut SliceSource::new(img.as_slice()), None, &mut vm).is_ok());
    // Without the memory to clear, it does not.
    let mut vm = FakeVm::new().no_files().failing_after(0);
    assert_eq!(
        load("test", &e, &mut SliceSource::new(img.as_slice()), None, &mut vm).unwrap_err(),
        Error(EIO)
    );
    assert!(vm.regions().is_empty());
}

#[test]
fn memory_for_the_plan_and_the_buffer_is_asked_for() {
    let img = ElfBuilder::new().pie_two_segment().build();
    let e = Image::parse(&mut SliceSource::new(img.as_slice()), 4096, EM_NATIVE).unwrap();
    let mut vm = FakeVm::new().no_files();
    let room = || Some(Vec::new());
    for (segments, buf, ok) in [
        (room(), Some(Vec::new()), true),
        (None, Some(Vec::new()), false),
        (room(), None, false),
    ] {
        let r = load_in(&e, &mut SliceSource::new(img.as_slice()), None, &mut vm, segments, buf);
        match r {
            Ok(l) => {
                assert!(ok);
                l.unload(&mut vm);
            }
            Err(err) => {
                assert!(!ok);
                assert_eq!(err, Error(ENOMEM));
            }
        }
        assert!(vm.regions().is_empty());
    }
}

#[test]
fn a_plan_can_be_copied_into_memory_directly() {
    let img = ElfBuilder::new().pie_two_segment().build();
    let e = Image::parse(&mut SliceSource::new(img.as_slice()), 4096, EM_NATIVE).unwrap();
    let mut vm = FakeVm::new().no_files();
    let at = vm.alloc_aligned(0x1000, 0x4000).unwrap();
    let p = plan(&e, 4096, Placement::At(at)).unwrap();
    let mut buf = Vec::new();
    assert_eq!(
        copy_into(&e, &mut SliceSource::new(img.as_slice()), &mut vm, &p, &mut buf),
        Ok(())
    );
    assert_eq!(vm.read(at, 4), ELFMAG);
    // A source that is too short fails.
    let short = img.bytes[..0x100].to_vec();
    assert_eq!(
        copy_into(&e, &mut SliceSource::new(short.as_slice()), &mut vm, &p, &mut buf),
        Err(Error(ENOEXEC))
    );
}

#[test]
fn the_entry_point_should_be_in_code() {
    let img = parse_image(&ElfBuilder::new().pie_two_segment().build());
    let p = plan(&img, 4096, Placement::At(0x1000_0000)).unwrap();
    assert!(entry_is_executable(&img, &p));
    let mut b = ElfBuilder::new().pie_two_segment();
    b.e_entry = 0x2000;
    let img = parse_image(&b.build());
    let p = plan(&img, 4096, Placement::At(0x1000_0000)).unwrap();
    assert!(!entry_is_executable(&img, &p));
    assert_eq!(check_stack_request("x", &img), Ok(()));
}

#[test]
fn mapping_arguments_are_what_they_say() {
    assert_eq!(RW, PROT_READ | PROT_WRITE);
    assert_eq!((PROT_NONE, PROT_READ, PROT_WRITE, PROT_EXEC), (0, 1, 2, 4));
    assert_eq!(COPY_CHUNK, 64 * 1024);
}

/// A stack that refuses the `n`-th write.
struct RefusingStack {
    inner: FakeStack,
    left: usize,
}

impl StackWriter for RefusingStack {
    fn top(&self) -> u64 {
        self.inner.top()
    }
    fn bottom(&self) -> u64 {
        self.inner.bottom()
    }
    fn write(&mut self, addr: u64, data: &[u8]) -> Result<(), Error> {
        if self.left == 0 {
            return Err(Error(EIO));
        }
        self.left -= 1;
        self.inner.write(addr, data)
    }
}

#[test]
fn a_write_that_fails_ends_the_layout() {
    let argv: &[&[u8]] = &[b"prog", b""];
    let envp: &[&[u8]] = &[b"A=1"];
    let mut n = 0;
    loop {
        let mut s = RefusingStack {
            inner: FakeStack::new(0x7000_0000, 64 * 1024),
            left: n,
        };
        match build_stack(&mut s, argv, envp, &spec()) {
            Ok(_) => {
                assert_eq!(s.left, 0);
                break;
            }
            Err(e) => assert_eq!(e, Error(EIO)),
        }
        n += 1;
    }
    // platform, execfn: two writes each; random; A=1: two; prog: two; the empty
    // argument: one; six words; twenty auxiliary entries of two words.
    assert_eq!(n, 2 + 2 + 1 + 2 + 2 + 1 + 6 + 40);
}

#[test]
fn a_stack_has_exact_numbers() {
    let mut s = FakeStack::new(0x7000_0000, 64 * 1024);
    let aux = AuxvSpec::default();
    let argv: &[&[u8]] = &[b"ab"];
    let l = build_stack(&mut s, argv, &[], &aux).unwrap();
    // execfn: a NUL at 0x7000_ffff; random: 16 bytes at 0x7000_ffe0; argv[0]:
    // "ab\0" at 0x7000_ffdd. Below it 4 words and 15 pairs: 272 bytes.
    let sp = (0x7000_ffdd - 272) & !15;
    assert_eq!(
        l,
        StackLayout {
            sp,
            argc_at: sp,
            low_water: sp
        }
    );
    assert_eq!(s.u64_at(sp), 1);
    assert_eq!(s.u64_at(sp + 8), 0x7000_ffdd);
    assert_eq!(s.u64_at(sp + 16), 0);
    assert_eq!(s.u64_at(sp + 24), 0);
    assert_eq!((s.u64_at(sp + 32), s.u64_at(sp + 40)), (AT_PAGESZ, 4096));
    assert_eq!(s.auxv_value(sp, AT_RANDOM), Some(0x7000_ffe0));
    assert_eq!(s.auxv_value(sp, AT_EXECFN), Some(0x7000_ffff));
    assert_eq!(s.auxv_value(sp, AT_CLKTCK), Some(100));
    assert_eq!(s.auxv_value(sp, AT_PLATFORM), None);
    assert_eq!(s.auxv_value(sp, AT_SYSINFO_EHDR), None);
}

#[test]
fn memory_for_addresses_is_asked_for() {
    let argv: &[&[u8]] = &[b"ab"];
    for (envp_at, argv_at) in [
        (None, Some(Vec::new())),
        (Some(Vec::new()), None),
        (None, None),
    ] {
        let mut s = FakeStack::new(0x7000_0000, 64 * 1024);
        let r = build_stack_in(&mut s, argv, &[], &spec(), envp_at, argv_at);
        assert_eq!(r, Err(Error(ENOMEM)));
    }
    let mut s = FakeStack::new(0x7000_0000, 64 * 1024);
    let r = build_stack_in(
        &mut s,
        argv,
        &[],
        &spec(),
        Some(Vec::new()),
        Some(Vec::new()),
    );
    assert!(r.is_ok());
}

#[test]
fn the_size_of_arguments_has_exact_bounds() {
    // "prog" and "A=1": 4 + 3 bytes, two terminators, two pointers.
    assert_eq!(
        check_arg_env_size(&[b"prog"], &[b"A=1"], 8 * 1024),
        Ok(4 + 3 + 2 + 16)
    );
    let fits = vec![b'x'; ARG_MAX - 9];
    let over = vec![b'x'; ARG_MAX - 8];
    assert_eq!(check_arg_env_size(&[&fits], &[], 0), Ok(ARG_MAX));
    assert_eq!(check_arg_env_size(&[&over], &[], 0), Err(Error(E2BIG)));
    // A quarter of a large stack is more than the floor.
    assert_eq!(
        check_arg_env_size(&[&over], &[], 4 * (ARG_MAX as u64 + 1)),
        Ok(ARG_MAX + 1)
    );
}

#[test]
fn an_interpreter_with_an_interpreter_is_refused() {
    let mut vm = FakeVm::new();
    let prog = ElfBuilder::new().glibc_arm64_style().build();
    let ld = ElfBuilder::new().glibc_arm64_style().build();
    let mut fs = FakeFs::new();
    fs.add(&mut vm, b"/usr/bin/node", &prog, 3);
    fs.add(&mut vm, b"/lib/ld-linux-aarch64.so.1", &ld, 4);
    assert_eq!(
        load_program("node", b"/usr/bin/node", &mut fs, &mut vm).unwrap_err(),
        Error(ENOEXEC)
    );
    assert!(vm.regions().is_empty());
}

#[test]
fn a_program_for_another_machine_is_not_supported() {
    let mut vm = FakeVm::new();
    let prog = ElfBuilder::new()
        .pie_two_segment()
        .machine(EM_AARCH64)
        .build();
    let mut fs = FakeFs::new();
    fs.add(&mut vm, b"/bin/x", &prog, 3);
    assert_eq!(
        load_program("x", b"/bin/x", &mut fs, &mut vm).unwrap_err(),
        Error(ENOTSUP)
    );
    assert_eq!(
        load_program("y", b"/bin/y", &mut fs, &mut vm).unwrap_err(),
        Error(ENOENT)
    );
    assert!(vm.ops().is_empty(), "nothing is mapped before validation");
}

#[test]
fn a_program_loads_and_unloads_without_file_mappings() {
    let mut vm = FakeVm::new().no_files();
    vm.machine = EM_AARCH64;
    let prog = ElfBuilder::new()
        .glibc_arm64_style()
        .machine(EM_AARCH64)
        .build();
    let ld = ElfBuilder::new()
        .pie_two_segment()
        .machine(EM_AARCH64)
        .build();
    let mut fs = FakeFs::new();
    fs.add(&mut vm, b"/usr/bin/node", &prog, 3);
    fs.add(&mut vm, b"/lib/ld-linux-aarch64.so.1", &ld, 4);
    let p = load_program("node", b"/usr/bin/node", &mut fs, &mut vm).unwrap();
    assert!(p.main.allocated);
    assert_eq!(vm.regions().len(), 2);
    let a = p.auxv(&Environment {
        page_size: 4096,
        platform: b"aarch64",
        execfn: b"/usr/bin/node",
        random: [7u8; 16],
        uid: 1,
        gid: 2,
        hwcap: (3, 4),
        sysinfo_ehdr: Some(5),
        machine: EM_AARCH64,
    });
    assert_eq!(a.minsigstksz, Some(4096));
    assert_eq!((a.uid, a.gid, a.hwcap, a.hwcap2), (1, 2, 3, 4));
    assert_eq!(a.sysinfo_ehdr, Some(5));
    assert_eq!((a.phent, a.phnum, a.pagesz, a.clktck), (56, 7, 4096, 100));
    assert_eq!((a.secure, a.random), (false, [7u8; 16]));
    p.unload(&mut vm);
    assert!(vm.regions().is_empty());
}

#[test]
fn open_files_can_be_loaded_directly() {
    let mut vm = FakeVm::new();
    let prog = ElfBuilder::new().pie_two_segment().build();
    let mut fs = FakeFs::new();
    fs.add(&mut vm, b"/bin/hello", &prog, 3);
    let mut opened = fs.open(b"/bin/hello").unwrap();
    let p = load_program_from("hello", &mut opened, &mut fs, &mut vm).unwrap();
    assert_eq!(p.entry(), p.main.plan.entry);
    assert_eq!(p.auxv(&nowhere()).minsigstksz, None);
    // The machine the system is built for decides, not the image's header.
    let built_for_arm = Environment {
        machine: EM_AARCH64,
        ..nowhere()
    };
    assert_eq!(p.image.ehdr.e_machine, EM_NATIVE);
    assert_eq!(p.auxv(&built_for_arm).minsigstksz, Some(4096));
    let (_, l) = load_interp_from(&mut opened, &mut vm).unwrap();
    assert!(l.plan.reserve_addr >= p.main.plan.reserve_addr + p.main.plan.reserve_len);
    let fixed = ElfBuilder::new().non_pie().build();
    fs.add(&mut vm, b"/bin/fixed", &fixed, 4);
    let mut opened = fs.open(b"/bin/fixed").unwrap();
    assert_eq!(
        load_interp_from(&mut opened, &mut vm).unwrap_err(),
        InterpFailure::Fixed
    );
}

/// A source that keeps track of what is read of it.
struct Watched {
    bytes: Vec<u8>,
    reads: Vec<(u64, usize)>,
}

impl Watched {
    fn new(bytes: &[u8]) -> Self {
        Watched {
            bytes: bytes.to_vec(),
            reads: Vec::new(),
        }
    }
}

impl ImageSource for Watched {
    fn read_exact_at(&mut self, off: u64, buf: &mut [u8]) -> Result<(), Error> {
        self.reads.push((off, buf.len()));
        SliceSource::new(self.bytes.as_slice()).read_exact_at(off, buf)
    }
    fn size(&self) -> Option<u64> {
        Some(self.bytes.len() as u64)
    }
}

#[test]
fn nothing_is_read_behind_a_refused_header() {
    let img = ElfBuilder::new().glibc_arm64_style().build();
    for (at, data) in [
        (0usize, vec![0u8]),
        (18, vec![0xff, 0xff]),
        (20, vec![2]),
        (54, vec![8, 0]),
        (56, vec![0, 0]),
        (32, vec![0xff; 8]),
    ] {
        let mut bytes = img.bytes.clone();
        bytes[at..at + data.len()].copy_from_slice(&data);
        let mut src = Watched::new(&bytes);
        assert!(Image::parse(&mut src, 4096, EM_NATIVE).is_err());
        assert_eq!(src.reads, [(0, EHDR_SIZE)], "byte {at}");
    }
    let mut src = Watched::new(&img.bytes[..EHDR_SIZE - 1]);
    assert_eq!(
        Image::parse(&mut src, 4096, EM_NATIVE).unwrap_err(),
        Reject::NotElf
    );
    assert_eq!(src.reads, [(0, EHDR_SIZE)]);

    // An accepted header is followed by its table, entry by entry, and the
    // interpreter's path is one read.
    let mut src = Watched::new(&img.bytes);
    let e = Image::parse(&mut src, 4096, EM_NATIVE).unwrap();
    let mut expected = vec![(0, EHDR_SIZE)];
    for i in 0..7u64 {
        expected.push((0x40 + i * PHDR_SIZE as u64, PHDR_SIZE));
    }
    assert_eq!(src.reads, expected);
    e.interp_path(&mut src).unwrap();
    let ph = e.interp.unwrap();
    expected.push((ph.p_offset, ph.p_filesz as usize));
    assert_eq!(src.reads, expected);
}

#[test]
fn a_mapped_image_is_not_read_and_a_copied_one_is_read_once() {
    let img = ElfBuilder::new().pie_two_segment().build();
    let mut src = Watched::new(&img.bytes);
    let e = Image::parse(&mut src, 4096, EM_NATIVE).unwrap();
    src.reads.clear();
    let mut vm = FakeVm::new();
    vm.install(3, &img);
    load("test", &e, &mut src, Some(3), &mut vm).unwrap();
    assert!(src.reads.is_empty());
    load("test", &e, &mut src, None, &mut vm).unwrap();
    let mut expected = Vec::new();
    for &i in &e.loads {
        let ph = &e.phdrs[i];
        let mut done = 0;
        while done < ph.p_filesz {
            let n = (ph.p_filesz - done).min(COPY_CHUNK as u64);
            expected.push((ph.p_offset + done, n as usize));
            done += n;
        }
    }
    assert_eq!(src.reads, expected);
}

#[test]
fn only_a_program_and_its_interpreter_are_opened() {
    let mut vm = FakeVm::new();
    let prog = ElfBuilder::new().glibc_arm64_style().build();
    let ld = ElfBuilder::new().pie_two_segment().build();
    let mut fs = FakeFs::new();
    fs.add(&mut vm, b"/usr/bin/node", &prog, 3);
    fs.add(&mut vm, b"/lib/ld-linux-aarch64.so.1", &ld, 4);
    let p = load_program("node", b"/usr/bin/node", &mut fs, &mut vm).unwrap();
    assert_eq!(
        fs.opened,
        [
            b"/usr/bin/node".to_vec(),
            b"/lib/ld-linux-aarch64.so.1".to_vec()
        ]
    );
    let (_, l) = p.interp.as_ref().unwrap();
    let (a, b) = (&p.main.plan, &l.plan);
    assert!(
        a.reserve_addr + a.reserve_len <= b.reserve_addr
            || b.reserve_addr + b.reserve_len <= a.reserve_addr
    );

    fs.opened.clear();
    load_program("ld", b"/lib/ld-linux-aarch64.so.1", &mut fs, &mut vm).unwrap();
    assert_eq!(fs.opened, [b"/lib/ld-linux-aarch64.so.1".to_vec()]);

    fs.opened.clear();
    assert!(load_program("x", b"/bin/x", &mut fs, &mut vm).is_err());
    assert_eq!(fs.opened, [b"/bin/x".to_vec()]);
}

#[test]
fn a_failure_says_why() {
    let ld_path = b"/lib/ld-linux-aarch64.so.1";
    let program = |interp: Option<TestImage>, images: Vec<(i32, TestImage)>| {
        let mut vm = FakeVm::new();
        let mut fs = FakeFs::new();
        for (fd, img) in images {
            fs.add(&mut vm, b"/bin/p", &img, fd);
        }
        if let Some(img) = interp {
            fs.add(&mut vm, ld_path, &img, 9);
        }
        let r = try_load_program("p", b"/bin/p", &mut fs, &mut vm);
        assert!(r.is_ok() || vm.regions().is_empty());
        r
    };
    let glibc = || vec![(3, ElfBuilder::new().glibc_arm64_style().build())];
    let interp = |img: Option<TestImage>| match program(img, glibc()).unwrap_err() {
        Failure::Interp { path, why } => {
            assert_eq!(path, ld_path);
            why
        }
        other => panic!("unexpected {other:?}"),
    };

    let f = program(None, vec![]).unwrap_err();
    assert!(matches!(f, Failure::Unopened(Error(ENOENT))));
    assert_eq!(f.error(), Error(ENOENT));

    let other = ElfBuilder::new().pie_two_segment().machine(EM_AARCH64).build();
    let f = program(None, vec![(3, other)]).unwrap_err();
    assert!(matches!(
        f,
        Failure::Rejected(Reject::Unsupported("ELF machine type mismatch"))
    ));
    assert_eq!(f.error(), Error(ENOTSUP));

    let stack = ElfBuilder::new().pie_two_segment().exec_stack().build();
    let f = program(None, vec![(3, stack)]).unwrap_err();
    assert!(matches!(f, Failure::ExecStack(Error(ENOTSUP))));
    assert_eq!(f.error(), Error(ENOTSUP));

    let mut unterminated = ElfBuilder::new().glibc_arm64_style().build();
    let at = 0x200 + ld_path.len();
    assert_eq!(unterminated.bytes[at], 0);
    unterminated.bytes[at] = 0x21;
    let f = program(None, vec![(3, unterminated)]).unwrap_err();
    assert!(matches!(f, Failure::NoPath(Error(ENOEXEC))));
    assert_eq!(f.error(), Error(ENOEXEC));

    let why = interp(None);
    assert_eq!(why, InterpFailure::Unopened(Error(ENOENT)));
    assert_eq!(why.error(), Error(ENOENT));

    let mut junk = ElfBuilder::new().pie_two_segment().build();
    junk.bytes[0] = 0;
    let why = interp(Some(junk));
    assert_eq!(why, InterpFailure::Rejected(Reject::NotElf));
    assert_eq!(why.error(), Error(ENOEXEC));

    let why = interp(Some(ElfBuilder::new().non_pie().build()));
    assert_eq!(why, InterpFailure::Fixed);
    assert_eq!(why.error(), Error(ENOEXEC));

    let why = interp(Some(ElfBuilder::new().glibc_arm64_style().build()));
    assert_eq!(why, InterpFailure::Nested);
    assert_eq!(why.error(), Error(ENOEXEC));
}

#[test]
fn a_program_without_room_says_so() {
    // A non-PIE program whose address is taken.
    let mut vm = FakeVm::new();
    let prog = ElfBuilder::new().non_pie().build();
    let mut fs = FakeFs::new();
    fs.add(&mut vm, b"/bin/p", &prog, 3);
    load_program("p", b"/bin/p", &mut fs, &mut vm).unwrap();
    let f = try_load_program("p", b"/bin/p", &mut fs, &mut vm).unwrap_err();
    assert!(matches!(
        f,
        Failure::Unloaded {
            error: Error(ENOMEM),
            fixed: true
        }
    ));
    assert_eq!(f.error(), Error(ENOMEM));

    // Without file mappings there is no address to choose.
    let mut bare = FakeVm::new().no_files();
    let f = try_load_program("p", b"/bin/p", &mut fs, &mut bare).unwrap_err();
    assert_eq!(f.error(), Error(ENOTSUP));
    assert!(matches!(f, Failure::Unloaded { fixed: true, .. }));

    let ld = ElfBuilder::new().pie_two_segment().build();
    fs.add(&mut vm, b"/lib/ld.so", &ld, 4);
    let mut opened = fs.open(b"/lib/ld.so").unwrap();
    vm.budget = 0;
    let f = try_load_program("ld", b"/lib/ld.so", &mut fs, &mut vm).unwrap_err();
    assert!(matches!(
        f,
        Failure::Unloaded {
            error: Error(EIO),
            fixed: false
        }
    ));
    let why = load_interp_from(&mut opened, &mut vm).unwrap_err();
    assert!(matches!(why, InterpFailure::Unloaded(_)));
    assert_eq!(why.error(), Error(EIO));
}

fn nowhere() -> Environment<'static> {
    Environment {
        page_size: 4096,
        platform: b"",
        execfn: b"",
        random: [0; 16],
        uid: 0,
        gid: 0,
        hwcap: (0, 0),
        sysinfo_ehdr: None,
        machine: EM_NATIVE,
    }
}
