//! The plan of a dump: which probes are attached, and what runs beside them.
use crate::arm64::{add_wrapping, wrap64};
use crate::art::{ArtHookTargets, ArtRuntimeLayout, ResolvedTarget, TargetsText};
use crate::text::{
    chars_of, contains, contains_text, dec_text, hex_text, push_dec, push_hex, string_texts,
};
use object::read::coff::{CoffSymbol, ImageSymbol};
use object::read::Symbol;
use object::{Object, ObjectSymbol};
use vstd::prelude::*;
use vstd::string::StringExecFns;

verus! {

/// The settings of a dump.
#[derive(Clone, Debug)]
pub struct DumpConfig {
    pub uid: u32,
    pub pid: Option<u32>,
    pub package_name: Option<String>,
    pub libart: String,
    pub out: String,
    pub trace: bool,
    pub auto_fix: bool,
    pub execute_offset: Option<u64>,
    pub nterp_offset: Option<u64>,
    pub runtime_layout: Option<ArtRuntimeLayout>,
    pub debug_layout: bool,
    pub code_item_fallback: bool,
    pub maps_scan: bool,
    pub native_buffer_scan: bool,
    pub native_elf_scan: bool,
    pub probe_mode: ProbeMode,
    pub libc: Option<String>,
}

/// Which probes are attached.
#[derive(Clone, Copy, Debug, Eq, PartialEq, Structural)]
pub enum ProbeMode {
    /// All of them.
    Full,
    /// Those on the life of DEX files.
    Lifecycle,
    /// None: memory maps are scanned.
    MapsOnly,
}

impl ProbeMode {
    /// The name of the mode.
    pub open spec fn text(self) -> Seq<char> {
        match self {
            ProbeMode::Full => "full"@,
            ProbeMode::Lifecycle => "lifecycle"@,
            ProbeMode::MapsOnly => "maps-only"@,
        }
    }

    /// The name of the mode.
    pub fn label(self) -> (r: &'static str)
        ensures
            r@ == self.text(),
    {
        match self {
            ProbeMode::Full => "full",
            ProbeMode::Lifecycle => "lifecycle",
            ProbeMode::MapsOnly => "maps-only",
        }
    }

    /// Whether probes are attached at all.
    pub fn uses_bpf(self) -> (r: bool)
        ensures
            r == (self != ProbeMode::MapsOnly),
    {
        match self {
            ProbeMode::MapsOnly => false,
            _ => true,
        }
    }

    /// Whether the interpreter is probed.
    pub fn attaches_interpreter(self) -> (r: bool)
        ensures
            r == (self == ProbeMode::Full),
    {
        match self {
            ProbeMode::Full => true,
            _ => false,
        }
    }

    /// Whether the life of DEX files is probed.
    pub fn attaches_lifecycle(self) -> (r: bool)
        ensures
            r == (self == ProbeMode::Full || self == ProbeMode::Lifecycle),
    {
        match self {
            ProbeMode::Full => true,
            ProbeMode::Lifecycle => true,
            ProbeMode::MapsOnly => false,
        }
    }

    /// Whether native buffers are probed.
    pub fn attaches_native_buffer(self) -> (r: bool)
        ensures
            r == (self == ProbeMode::Full),
    {
        match self {
            ProbeMode::Full => true,
            _ => false,
        }
    }
}

// ---------------------------------------------------------------------------
// Course of a dump
// ---------------------------------------------------------------------------

/// The course that a dump takes.
#[derive(Clone, Copy, Debug, PartialEq, Eq, Structural)]
pub enum Course {
    /// Probes are attached.
    Probes,
    /// Memory maps are scanned once.
    MapsOnly,
    /// Neither probes nor a scan of memory maps is wanted.
    Refused,
}

/// What happens to the probes on native buffers.
#[derive(Clone, Copy, Debug, PartialEq, Eq, Structural)]
pub enum NativeProbes {
    Attach,
    /// The mode leaves them out.
    SkippedByMode,
    /// No scan wants them.
    Unwanted,
}

/// The settings that the probes read.
#[derive(Clone, Copy, Debug, PartialEq, Eq, Structural)]
pub struct BpfConfig {
    pub uid: u32,
    pub pid: i32,
    pub code_item_fallback: u32,
    pub debug_layout: u32,
    pub native_buffer_scan: u32,
    pub reserved: u32,
}

/// A switch as a number.
pub open spec fn flag(on: bool) -> u32 {
    if on {
        1
    } else {
        0
    }
}

fn as_flag(on: bool) -> (r: u32)
    ensures
        r == flag(on),
{
    if on {
        1
    } else {
        0
    }
}

/// A process id as the probes hold it, in two's complement. No process is minus one.
pub open spec fn signed_pid(pid: Option<u32>) -> int {
    match pid {
        None => -1,
        Some(pid) => if pid < 0x8000_0000 {
            pid as int
        } else {
            pid - 0x1_0000_0000
        },
    }
}

/// The course of the dump.
pub open spec fn course_of(c: DumpConfig) -> Course {
    match c.probe_mode {
        ProbeMode::MapsOnly => if c.maps_scan {
            Course::MapsOnly
        } else {
            Course::Refused
        },
        _ => Course::Probes,
    }
}

/// What happens to the probes on native buffers.
pub open spec fn native_probes_of(c: DumpConfig) -> NativeProbes {
    if c.native_buffer_scan || c.native_elf_scan {
        match c.probe_mode {
            ProbeMode::Full => NativeProbes::Attach,
            _ => NativeProbes::SkippedByMode,
        }
    } else {
        NativeProbes::Unwanted
    }
}

/// The settings that the probes read.
pub open spec fn is_bpf_config(c: DumpConfig, r: BpfConfig) -> bool {
    &&& r.uid == c.uid
    &&& r.pid == signed_pid(c.pid)
    &&& r.code_item_fallback == flag(c.code_item_fallback)
    &&& r.debug_layout == flag(c.debug_layout)
    &&& r.native_buffer_scan == flag(c.native_buffer_scan || c.native_elf_scan)
    &&& r.reserved == 0
}

impl DumpConfig {
    /// Decides the course of the dump.
    pub fn course(&self) -> (r: Course)
        ensures
            r == course_of(*self),
            r == (if self.probe_mode != ProbeMode::MapsOnly {
                Course::Probes
            } else if self.maps_scan {
                Course::MapsOnly
            } else {
                Course::Refused
            }),
    {
        if self.probe_mode.uses_bpf() {
            Course::Probes
        } else if self.maps_scan {
            Course::MapsOnly
        } else {
            Course::Refused
        }
    }

    /// Decides what happens to the probes on native buffers.
    pub fn native_probes(&self) -> (r: NativeProbes)
        ensures
            r == native_probes_of(*self),
            r == (if !self.native_buffer_scan && !self.native_elf_scan {
                NativeProbes::Unwanted
            } else if self.probe_mode == ProbeMode::Full {
                NativeProbes::Attach
            } else {
                NativeProbes::SkippedByMode
            }),
    {
        if !self.native_buffer_scan && !self.native_elf_scan {
            NativeProbes::Unwanted
        } else if self.probe_mode.attaches_native_buffer() {
            NativeProbes::Attach
        } else {
            NativeProbes::SkippedByMode
        }
    }

    /// The settings that the probes read. Events on native buffers are sent where one of
    /// the native scans is wanted.
    pub fn bpf_config(&self) -> (r: BpfConfig)
        ensures
            is_bpf_config(*self, r),
            r.uid == self.uid,
            r.pid == signed_pid(self.pid),
            r.code_item_fallback == flag(self.code_item_fallback),
            r.debug_layout == flag(self.debug_layout),
            r.native_buffer_scan == flag(self.native_buffer_scan || self.native_elf_scan),
            r.reserved == 0,
    {
        let pid: i32 = match self.pid {
            None => -1,
            Some(pid) => if pid < 0x8000_0000 {
                pid as i32
            } else {
                (pid as i64 - 0x1_0000_0000) as i32
            },
        };
        BpfConfig {
            uid: self.uid,
            pid,
            code_item_fallback: as_flag(self.code_item_fallback),
            debug_layout: as_flag(self.debug_layout),
            native_buffer_scan: as_flag(self.native_buffer_scan || self.native_elf_scan),
            reserved: 0,
        }
    }
}

// ---------------------------------------------------------------------------
// Probes on the runtime
// ---------------------------------------------------------------------------

/// A probe program.
#[derive(Clone, Copy, Debug, PartialEq, Eq, Structural)]
pub enum Program {
    Execute,
    ExecuteNterp,
    NterpInvoke,
    DexFileCtor,
    RegisterDexFile,
}

impl Program {
    /// The name of the program in the object file.
    pub fn name(self) -> (r: &'static str)
        ensures
            r@ == (match self {
                Program::Execute => "uprobe_libart_execute"@,
                Program::ExecuteNterp => "uprobe_libart_executeNterpImpl"@,
                Program::NterpInvoke => "uprobe_libart_nterpOpInvoke"@,
                Program::DexFileCtor => "uprobe_libart_dexFileCtor"@,
                Program::RegisterDexFile => "uprobe_libart_registerDexFile"@,
            }),
    {
        match self {
            Program::Execute => "uprobe_libart_execute",
            Program::ExecuteNterp => "uprobe_libart_executeNterpImpl",
            Program::NterpInvoke => "uprobe_libart_nterpOpInvoke",
            Program::DexFileCtor => "uprobe_libart_dexFileCtor",
            Program::RegisterDexFile => "uprobe_libart_registerDexFile",
        }
    }
}

/// A probe that is to be attached.
#[derive(Clone, Copy, Debug, PartialEq, Eq)]
pub struct Attachment {
    pub program: Program,
    /// The function, in messages.
    pub function: &'static str,
    pub addr: u64,
    /// A failure ends the dump; otherwise it is reported.
    pub required: bool,
    /// It counts as a probe on the runtime.
    pub counts: bool,
}

/// Hook points on the life of DEX files.
#[derive(Clone, Copy, Debug, PartialEq, Eq, Structural)]
pub struct LifecycleTargets {
    pub dex_file_ctor: Option<ResolvedTarget>,
    pub register_dex_file: Option<ResolvedTarget>,
}

/// The probe for a hook point, if it was found.
pub open spec fn attach_one(
    program: Program,
    function: &'static str,
    target: Option<ResolvedTarget>,
    required: bool,
) -> Seq<Attachment> {
    match target {
        Some(t) => seq![Attachment { program, function, addr: t.addr, required, counts: true }],
        None => seq![],
    }
}

/// The probes on invoke handlers.
pub open spec fn attach_invokes(targets: Seq<ResolvedTarget>) -> Seq<Attachment> {
    targets.map_values(
        |t: ResolvedTarget|
            Attachment {
                program: Program::NterpInvoke,
                function: "nterp_op_invoke_*",
                addr: t.addr,
                required: false,
                counts: false,
            },
    )
}

/// The probes on the runtime, in the order in which they are attached: those on the
/// interpreter, which must succeed and count, but for those on invoke handlers; then those
/// on the life of DEX files.
pub open spec fn attachments(mode: ProbeMode, t: TargetsText, life: LifecycleTargets) -> Seq<
    Attachment,
> {
    let interpreter = attach_one(Program::Execute, "Execute", t.execute, true) + attach_one(
        Program::ExecuteNterp,
        "ExecuteNterpImpl",
        t.execute_nterp,
        true,
    ) + attach_one(
        Program::ExecuteNterp,
        "ExecuteNterpWithClinitImpl",
        t.execute_nterp_with_clinit,
        true,
    ) + attach_invokes(t.nterp_invoke_addrs);
    let lifecycle = attach_one(
        Program::DexFileCtor,
        "DexFile::DexFile",
        life.dex_file_ctor,
        false,
    ) + attach_one(Program::RegisterDexFile, "RegisterDexFile", life.register_dex_file, false);
    match mode {
        ProbeMode::Full => interpreter + lifecycle,
        ProbeMode::Lifecycle => lifecycle,
        ProbeMode::MapsOnly => seq![],
    }
}

fn push_one(
    plan: &mut Vec<Attachment>,
    program: Program,
    function: &'static str,
    target: Option<ResolvedTarget>,
    required: bool,
)
    ensures
        final(plan)@ == old(plan)@ + attach_one(program, function, target, required),
{
    let ghost before = plan@;
    if let Some(t) = target {
        plan.push(Attachment { program, function, addr: t.addr, required, counts: true });
    }
    assert(plan@ =~= before + attach_one(program, function, target, required));
}

/// Plans the probes on the runtime.
pub fn plan_attachments(mode: ProbeMode, targets: &ArtHookTargets, life: LifecycleTargets) -> (r: Vec<
    Attachment,
>)
    ensures
        r@ == attachments(mode, targets@, life),
{
    let mut plan: Vec<Attachment> = Vec::new();
    if mode.attaches_interpreter() {
        push_one(&mut plan, Program::Execute, "Execute", targets.execute, true);
        push_one(
            &mut plan,
            Program::ExecuteNterp,
            "ExecuteNterpImpl",
            targets.execute_nterp,
            true,
        );
        push_one(
            &mut plan,
            Program::ExecuteNterp,
            "ExecuteNterpWithClinitImpl",
            targets.execute_nterp_with_clinit,
            true,
        );
        let ghost head = plan@;
        let ghost invokes = attach_invokes(targets.nterp_invoke_addrs@);
        for i in 0..targets.nterp_invoke_addrs.len()
            invariant
                invokes == attach_invokes(targets.nterp_invoke_addrs@),
                plan@ == head + invokes.take(i as int),
        {
            let addr: u64 = targets.nterp_invoke_addrs[i].addr;
            plan.push(
                Attachment {
                    program: Program::NterpInvoke,
                    function: "nterp_op_invoke_*",
                    addr,
                    required: false,
                    counts: false,
                },
            );
            assert(plan@ =~= head + invokes.take(i + 1));
        }
        assert(invokes.take(invokes.len() as int) =~= invokes);
    }
    if mode.attaches_lifecycle() {
        push_one(
            &mut plan,
            Program::DexFileCtor,
            "DexFile::DexFile",
            life.dex_file_ctor,
            false,
        );
        push_one(
            &mut plan,
            Program::RegisterDexFile,
            "RegisterDexFile",
            life.register_dex_file,
            false,
        );
    }
    assert(plan@ =~= attachments(mode, targets@, life));
    plan
}

/// What follows when a probe was tried.
#[derive(Clone, Copy, Debug, PartialEq, Eq, Structural)]
pub enum AttachReport {
    /// It was attached.
    Attached,
    /// It failed, and that is reported.
    Failed,
    /// It failed, and that ends the dump.
    Abort,
}

/// The attaching of planned probes, one after the other.
#[derive(Clone, Debug, PartialEq, Eq)]
pub struct AttachRun {
    pub plan: Vec<Attachment>,
    /// How many were tried.
    pub tried: usize,
    /// How many of those that count were attached.
    pub attached: usize,
}

/// What follows when the next probe was tried.
pub open spec fn is_attach_step(before: AttachRun, ok: bool, after: AttachRun, r: AttachReport) -> bool {
    let probe = before.plan@[before.tried as int];
    &&& after.plan == before.plan
    &&& after.tried == before.tried + 1
    &&& after.attached == before.attached + (if ok && probe.counts {
        1int
    } else {
        0
    })
    &&& r == (if ok {
        AttachReport::Attached
    } else if probe.required {
        AttachReport::Abort
    } else {
        AttachReport::Failed
    })
}

impl AttachRun {
    /// No more probes were attached than tried, nor tried than planned.
    pub open spec fn wf(&self) -> bool {
        self.attached <= self.tried <= self.plan@.len()
    }

    /// Starts to attach the planned probes.
    pub fn new(plan: Vec<Attachment>) -> (r: Self)
        ensures
            r.wf(),
            r.plan@ == plan@,
            r.tried == 0,
            r.attached == 0,
    {
        AttachRun { plan, tried: 0, attached: 0 }
    }

    /// The probe to attach next.
    pub fn next(&self) -> (r: Option<Attachment>)
        requires
            self.wf(),
        ensures
            r == (if self.tried < self.plan@.len() {
                Some(self.plan@[self.tried as int])
            } else {
                None
            }),
    {
        if self.tried < self.plan.len() {
            Some(self.plan[self.tried])
        } else {
            None
        }
    }

    /// Takes note of whether the probe was attached, and says what follows.
    pub fn report(&mut self, ok: bool) -> (r: AttachReport)
        requires
            old(self).wf(),
            old(self).tried < old(self).plan.len(),
        ensures
            final(self).wf(),
            is_attach_step(*old(self), ok, *final(self), r),
            final(self).plan == old(self).plan,
            final(self).tried == old(self).tried + 1,
            ({
                let probe = old(self).plan@[old(self).tried as int];
                &&& final(self).attached == old(self).attached + (if ok && probe.counts {
                    1int
                } else {
                    0
                })
                &&& r == (if ok {
                    AttachReport::Attached
                } else if probe.required {
                    AttachReport::Abort
                } else {
                    AttachReport::Failed
                })
            }),
    {
        let probe = self.plan[self.tried];
        self.tried += 1;
        if ok {
            if probe.counts {
                self.attached += 1;
            }
            AttachReport::Attached
        } else if probe.required {
            AttachReport::Abort
        } else {
            AttachReport::Failed
        }
    }

    /// Whether the dump can start: one probe that counts must be attached.
    pub fn is_enough(&self) -> (r: bool)
        ensures
            r == (self.attached > 0),
    {
        self.attached > 0
    }
}

/// A mode with fewer probes attaches none that the full mode leaves out, and the mode that
/// scans memory maps attaches none at all.
pub proof fn law_modes_only_leave_out(t: TargetsText, life: LifecycleTargets, a: Attachment)
    ensures
        attachments(ProbeMode::MapsOnly, t, life).len() == 0,
        attachments(ProbeMode::Lifecycle, t, life).contains(a) ==> attachments(
            ProbeMode::Full,
            t,
            life,
        ).contains(a),
        attachments(ProbeMode::Lifecycle, t, life).contains(a) ==> a.program == Program::DexFileCtor
            || a.program == Program::RegisterDexFile,
{
    let some = attachments(ProbeMode::Lifecycle, t, life);
    let all = attachments(ProbeMode::Full, t, life);
    if some.contains(a) {
        let i = some.index_of(a);
        assert(all[all.len() - some.len() + i] == some[i]);
    }
}

// ---------------------------------------------------------------------------
// Probes on libc
// ---------------------------------------------------------------------------

/// A function of libc that is probed, with the programs at its entry and at its return.
#[derive(Clone, Copy, Debug, PartialEq, Eq)]
pub struct LibcProbe {
    pub symbol: &'static str,
    pub entry: &'static str,
    pub ret: Option<&'static str>,
}

/// The functions of libc that are probed.
pub open spec fn libc_probe_list() -> Seq<LibcProbe> {
    seq![
        LibcProbe {
            symbol: "memcpy",
            entry: "uprobe_libc_memcpy",
            ret: Some("uretprobe_libc_memcpy"),
        },
        LibcProbe {
            symbol: "memmove",
            entry: "uprobe_libc_memmove",
            ret: Some("uretprobe_libc_memmove"),
        },
        LibcProbe { symbol: "mmap", entry: "uprobe_libc_mmap", ret: Some("uretprobe_libc_mmap") },
        LibcProbe { symbol: "mmap64", entry: "uprobe_libc_mmap", ret: Some("uretprobe_libc_mmap") },
        LibcProbe { symbol: "mprotect", entry: "uprobe_libc_mprotect", ret: None },
    ]
}

/// The functions of libc that are probed.
pub fn libc_probes() -> (r: Vec<LibcProbe>)
    ensures
        r@ == libc_probe_list(),
{
    let r: Vec<LibcProbe> = vec![
        LibcProbe {
            symbol: "memcpy",
            entry: "uprobe_libc_memcpy",
            ret: Some("uretprobe_libc_memcpy"),
        },
        LibcProbe {
            symbol: "memmove",
            entry: "uprobe_libc_memmove",
            ret: Some("uretprobe_libc_memmove"),
        },
        LibcProbe { symbol: "mmap", entry: "uprobe_libc_mmap", ret: Some("uretprobe_libc_mmap") },
        LibcProbe { symbol: "mmap64", entry: "uprobe_libc_mmap", ret: Some("uretprobe_libc_mmap") },
        LibcProbe { symbol: "mprotect", entry: "uprobe_libc_mprotect", ret: None },
    ];
    assert(r@ =~= libc_probe_list());
    r
}

/// The places where libc is looked for.
pub open spec fn libc_path_list() -> Seq<&'static str> {
    seq![
        "/apex/com.android.runtime/lib64/bionic/libc.so",
        "/system/lib64/libc.so",
        "/apex/com.android.runtime/lib/bionic/libc.so",
        "/system/lib/libc.so",
    ]
}

/// The places where libc is looked for, the first one first.
pub fn libc_paths() -> (r: Vec<&'static str>)
    ensures
        r@ == libc_path_list(),
{
    let r: Vec<&'static str> = vec![
        "/apex/com.android.runtime/lib64/bionic/libc.so",
        "/system/lib64/libc.so",
        "/apex/com.android.runtime/lib/bionic/libc.so",
        "/system/lib/libc.so",
    ];
    assert(r@ =~= libc_path_list());
    r
}

/// Which libc is probed.
#[derive(Clone, Copy, Debug, PartialEq, Eq, Structural)]
pub enum LibcChoice {
    /// The one that was given.
    Given,
    /// The one that was given is not there.
    GivenMissing,
    /// The place with this number.
    Place(usize),
    /// None was found.
    Nowhere,
}

/// Which libc is probed.
pub open spec fn is_libc_choice(given: Option<bool>, present: Seq<bool>, r: LibcChoice) -> bool {
    match (given, r) {
        (Some(there), _) => r == (if there {
            LibcChoice::Given
        } else {
            LibcChoice::GivenMissing
        }),
        (None, LibcChoice::Place(i)) => i < present.len() && present[i as int] && forall|j: int|
            0 <= j < i ==> !#[trigger] present[j],
        (None, LibcChoice::Nowhere) => forall|j: int| 0 <= j < present.len() ==> !#[trigger] present[j],
        _ => false,
    }
}

/// Decides which libc is probed. `given` says whether one was given, and whether it is
/// there; `present` says which of the usual places have one. One that was given is the only
/// one considered.
pub fn choose_libc(given: Option<bool>, present: &Vec<bool>) -> (r: LibcChoice)
    ensures
        is_libc_choice(given, present@, r),
        match given {
            Some(there) => r == (if there {
                LibcChoice::Given
            } else {
                LibcChoice::GivenMissing
            }),
            None => match r {
                LibcChoice::Place(i) => i < present@.len() && present@[i as int] && forall|j: int|
                    0 <= j < i ==> !#[trigger] present@[j],
                LibcChoice::Nowhere => forall|j: int|
                    0 <= j < present@.len() ==> !#[trigger] present@[j],
                _ => false,
            },
        },
{
    if let Some(there) = given {
        return if there {
            LibcChoice::Given
        } else {
            LibcChoice::GivenMissing
        };
    }
    for i in 0..present.len()
        invariant
            given is None,
            forall|j: int| 0 <= j < i ==> !#[trigger] present@[j],
    {
        if present[i] {
            return LibcChoice::Place(i);
        }
    }
    LibcChoice::Nowhere
}

/// A symbol of an object file. Its address is the base plus the offset, or zero where there
/// is no offset.
#[derive(Clone, Debug, PartialEq, Eq)]
pub struct FileSymbol {
    pub name: Option<String>,
    pub defined: bool,
    pub base: u64,
    pub offset: Option<u64>,
}

/// What a symbol of an object file is.
pub struct FileSymbolText {
    pub name: Option<Seq<char>>,
    pub defined: bool,
    pub base: u64,
    pub offset: Option<u64>,
}

impl FileSymbolText {
    /// The address of the symbol. A sum beyond 64 bits wraps.
    pub open spec fn address(self) -> u64 {
        match self.offset {
            None => 0,
            Some(offset) => wrap64(self.base + offset),
        }
    }
}

impl View for FileSymbol {
    type V = FileSymbolText;

    open spec fn view(&self) -> FileSymbolText {
        FileSymbolText {
            name: match self.name {
                Some(name) => Some(name@),
                None => None,
            },
            defined: self.defined,
            base: self.base,
            offset: self.offset,
        }
    }
}

impl FileSymbol {
    /// The address of the symbol.
    pub fn address(&self) -> (r: u64)
        ensures
            r == self@.address(),
    {
        match self.offset {
            None => 0,
            Some(offset) => add_wrapping(self.base, offset),
        }
    }
}

/// What some symbols are.
pub open spec fn file_symbol_texts(s: Seq<FileSymbol>) -> Seq<FileSymbolText> {
    s.map_values(|x: FileSymbol| x@)
}

/// The symbols of an object file: the dynamic ones, and those of its symbol table.
#[derive(Clone, Debug, PartialEq, Eq)]
pub struct FileSymbols {
    pub dynamic: Vec<FileSymbol>,
    pub others: Vec<FileSymbol>,
}

/// What the symbols of an object file are.
pub struct FileSymbolsText {
    pub dynamic: Seq<FileSymbolText>,
    pub others: Seq<FileSymbolText>,
}

impl View for FileSymbols {
    type V = FileSymbolsText;

    open spec fn view(&self) -> FileSymbolsText {
        FileSymbolsText {
            dynamic: file_symbol_texts(self.dynamic@),
            others: file_symbol_texts(self.others@),
        }
    }
}

/// The symbols that the crate `object` finds in some bytes, if it takes them for a 64-bit
/// program of Windows.
pub uninterp spec fn windows_symbols_of(bytes: Seq<u8>) -> Option<FileSymbolsText>;

/// Calls `object::File::parse`, and for a 64-bit program of Windows hands out the symbols of
/// `dynamic_symbols` and those of `symbols`, each with its name where it is UTF-8 and whether
/// it is a definition. The address of such a symbol is the image base, from
/// `relative_address_base`, plus what `ImageSymbol::address` gives for a base of zero, where
/// it gives an address at all. The two are handed out apart, because `ObjectSymbol::address`
/// adds them without a test for overflow. The result depends on the bytes alone; what it is
/// for given bytes is left open.
#[verifier::external_body]
pub(crate) fn windows_symbols(bytes: &[u8]) -> (r: Option<FileSymbols>)
    ensures
        match r {
            Some(symbols) => windows_symbols_of(bytes@) == Some(symbols@),
            None => windows_symbols_of(bytes@) is None,
        },
{
    let file = match object::File::parse(bytes).ok()? {
        object::File::Pe64(file) => file,
        _ => return None,
    };
    let convert = |s: CoffSymbol<'_, '_>| FileSymbol {
        name: s.name().ok().map(str::to_owned),
        defined: s.is_definition(),
        base: file.relative_address_base(),
        offset: s.coff_symbol().address(0, &file.section_table()).unwrap_or(None),
    };
    let dynamic = file.dynamic_symbols().map(convert).collect();
    Some(FileSymbols { dynamic, others: file.symbols().map(convert).collect() })
}

/// The symbols that the crate `object` finds in some bytes, if it takes them for an object
/// file.
pub uninterp spec fn object_symbols_of(bytes: Seq<u8>) -> Option<FileSymbolsText>;

/// Calls `object::File::parse`, and hands out the symbols of `dynamic_symbols` and those of
/// `symbols`, each with its name where it is UTF-8, whether it is a definition, and its
/// address. The result depends on the bytes alone; what it is for given bytes is left open.
/// The 64-bit programs of Windows are left out, because the address of a symbol can overflow
/// there.
#[verifier::external_body]
pub(crate) fn object_symbols(bytes: &[u8]) -> (r: Option<FileSymbols>)
    requires
        windows_symbols_of(bytes@) is None,
    ensures
        match r {
            Some(symbols) => object_symbols_of(bytes@) == Some(symbols@),
            None => object_symbols_of(bytes@) is None,
        },
{
    let file = object::File::parse(bytes).ok()?;
    let convert = |s: Symbol<'_, '_>| FileSymbol {
        name: s.name().ok().map(str::to_owned),
        defined: s.is_definition(),
        base: 0,
        offset: Some(s.address()),
    };
    let dynamic = file.dynamic_symbols().map(convert).collect();
    Some(FileSymbols { dynamic, others: file.symbols().map(convert).collect() })
}

/// The symbols of an object file.
pub open spec fn symbols_in(bytes: Seq<u8>) -> Option<FileSymbolsText> {
    match windows_symbols_of(bytes) {
        Some(symbols) => Some(symbols),
        None => object_symbols_of(bytes),
    }
}

/// The address of the first definition of a name, from number `i` on.
pub open spec fn definition_in(symbols: Seq<FileSymbolText>, name: Seq<char>, i: int) -> Option<u64>
    decreases symbols.len() - i,
{
    if i >= symbols.len() {
        None
    } else if symbols[i].defined && symbols[i].name == Some(name) {
        Some(symbols[i].address())
    } else {
        definition_in(symbols, name, i + 1)
    }
}

/// The first definition of a name in a list.
fn find_in(symbols: &Vec<FileSymbol>, name: &str) -> (r: Option<usize>)
    ensures
        match r {
            Some(i) => i < symbols@.len() && symbols@[i as int].defined && symbols@[i as int]@.name
                == Some(name@) && forall|j: int|
                0 <= j < i ==> !((#[trigger] symbols@[j]).defined && symbols@[j]@.name == Some(name@)),
            None => forall|j: int|
                0 <= j < symbols@.len() ==> !((#[trigger] symbols@[j]).defined && symbols@[j]@.name
                    == Some(name@)),
        },
{
    let wanted: String = name.to_owned();
    for i in 0..symbols.len()
        invariant
            wanted@ == name@,
            forall|j: int|
                0 <= j < i ==> !((#[trigger] symbols@[j]).defined && symbols@[j]@.name == Some(name@)),
    {
        if symbols[i].defined {
            if let Some(found) = &symbols[i].name {
                if *found == wanted {
                    return Some(i);
                }
            }
        }
    }
    None
}

/// Symbols that do not define the name are passed over.
proof fn lemma_passed_over(symbols: Seq<FileSymbolText>, name: Seq<char>, i: int, k: int)
    requires
        0 <= i <= k <= symbols.len(),
        forall|j: int|
            i <= j < k ==> !((#[trigger] symbols[j]).defined && symbols[j].name == Some(name)),
    ensures
        definition_in(symbols, name, i) == definition_in(symbols, name, k),
    decreases k - i,
{
    if i < k {
        lemma_passed_over(symbols, name, i + 1, k);
    }
}

/// The address of the first definition of a name: the dynamic symbols come before the others.
pub fn find_definition(symbols: &FileSymbols, name: &str) -> (r: Option<u64>)
    ensures
        r == definition_in(symbols@.dynamic + symbols@.others, name@, 0),
{
    let ghost all = symbols@.dynamic + symbols@.others;
    let ghost n = symbols@.dynamic.len();
    assert(forall|j: int| 0 <= j < n ==> #[trigger] all[j] == symbols.dynamic@[j]@);
    assert(forall|j: int| n <= j < all.len() ==> #[trigger] all[j] == symbols.others@[j - n]@);
    match find_in(&symbols.dynamic, name) {
        Some(i) => {
            proof {
                lemma_passed_over(all, name@, 0, i as int);
            }
            Some(symbols.dynamic[i].address())
        },
        None => {
            proof {
                lemma_passed_over(all, name@, 0, n as int);
            }
            match find_in(&symbols.others, name) {
                Some(i) => {
                    proof {
                        lemma_passed_over(all, name@, n as int, n + i);
                    }
                    Some(symbols.others[i].address())
                },
                None => {
                    proof {
                        lemma_passed_over(all, name@, n as int, all.len() as int);
                    }
                    None
                },
            }
        },
    }
}

/// The address of the first definition of a name in the bytes of an object file.
pub open spec fn symbol_address(bytes: Seq<u8>, name: Seq<char>) -> Option<u64> {
    match symbols_in(bytes) {
        None => None,
        Some(symbols) => definition_in(symbols.dynamic + symbols.others, name, 0),
    }
}

/// The address of the first definition of a name in an object file.
pub fn find_elf_symbol(bytes: &[u8], name: &str) -> (r: Option<u64>)
    ensures
        r == symbol_address(bytes@, name@),
{
    if let Some(symbols) = windows_symbols(bytes) {
        return find_definition(&symbols, name);
    }
    match object_symbols(bytes) {
        None => None,
        Some(symbols) => find_definition(&symbols, name),
    }
}

/// The first `n` functions of libc that are probed, with their addresses in the library,
/// as far as the library has them.
pub open spec fn found_probes(bytes: Seq<u8>, n: nat) -> Seq<(LibcProbe, u64)>
    decreases n,
{
    if n == 0 {
        seq![]
    } else {
        let before = found_probes(bytes, (n - 1) as nat);
        let probe = libc_probe_list()[n - 1];
        match symbol_address(bytes, probe.symbol@) {
            Some(addr) => before.push((probe, addr)),
            None => before,
        }
    }
}

/// A program that is attached to a function of libc.
#[derive(Clone, Copy, Debug, PartialEq, Eq)]
pub struct LibcAttachment {
    pub program: &'static str,
    pub symbol: &'static str,
    pub addr: u64,
    /// It runs when the function returns.
    pub at_return: bool,
}

/// The attaching of the probes on libc. A function counts once the program at its entry is
/// attached; only then the one at its return is tried.
#[derive(Clone, Debug, PartialEq, Eq)]
pub struct LibcRun {
    /// The functions and their addresses.
    pub plan: Vec<(LibcProbe, u64)>,
    /// The number of the function that is tried.
    pub at: usize,
    /// The program at the return is tried.
    pub at_return: bool,
    /// How many functions count.
    pub attached: usize,
}

/// What follows when the next program was tried.
pub open spec fn is_libc_step(before: LibcRun, ok: bool, after: LibcRun) -> bool {
    let entered = ok && !before.at_return;
    &&& after.plan == before.plan
    &&& after.attached == before.attached + (if entered {
        1int
    } else {
        0
    })
    &&& after.at_return == (entered && before.plan@[before.at as int].0.ret is Some)
    &&& after.at == before.at + (if after.at_return {
        0int
    } else {
        1
    })
}

impl LibcRun {
    /// No more functions count than were tried, and a program at a return is tried only where
    /// there is one.
    pub open spec fn wf(&self) -> bool {
        &&& self.at <= self.plan@.len()
        &&& self.attached <= self.at + (if self.at_return {
            1int
        } else {
            0
        })
        &&& self.at_return ==> self.at < self.plan@.len() && self.plan@[self.at as int].0.ret is Some
    }

    /// Starts to attach the probes on a library with these bytes.
    pub fn new(bytes: &[u8]) -> (r: Self)
        ensures
            r.wf(),
            r.plan@ == found_probes(bytes@, libc_probe_list().len()),
            r.at == 0,
            !r.at_return,
            r.attached == 0,
    {
        let probes = libc_probes();
        let mut plan: Vec<(LibcProbe, u64)> = Vec::new();
        for i in 0..probes.len()
            invariant
                probes@ == libc_probe_list(),
                plan@ == found_probes(bytes@, i as nat),
        {
            let probe = probes[i];
            if let Some(addr) = find_elf_symbol(bytes, probe.symbol) {
                plan.push((probe, addr));
            }
        }
        LibcRun { plan, at: 0, at_return: false, attached: 0 }
    }

    /// The program to attach next.
    pub open spec fn upcoming(&self) -> Option<LibcAttachment> {
        if self.at >= self.plan@.len() {
            None
        } else {
            let (probe, addr) = self.plan@[self.at as int];
            Some(
                LibcAttachment {
                    program: if self.at_return {
                        probe.ret->Some_0
                    } else {
                        probe.entry
                    },
                    symbol: probe.symbol,
                    addr,
                    at_return: self.at_return,
                },
            )
        }
    }

    /// The program to attach next.
    pub fn next(&self) -> (r: Option<LibcAttachment>)
        requires
            self.wf(),
        ensures
            r == self.upcoming(),
    {
        if self.at >= self.plan.len() {
            return None;
        }
        let (probe, addr) = self.plan[self.at];
        let program: &'static str = match probe.ret {
            Some(program) if self.at_return => program,
            _ => probe.entry,
        };
        Some(LibcAttachment { program, symbol: probe.symbol, addr, at_return: self.at_return })
    }

    /// Takes note of whether the program was attached.
    pub fn report(&mut self, ok: bool)
        requires
            old(self).wf(),
            old(self).upcoming() is Some,
        ensures
            final(self).wf(),
            is_libc_step(*old(self), ok, *final(self)),
            final(self).plan == old(self).plan,
            final(self).attached == old(self).attached + (if ok && !old(self).at_return {
                1int
            } else {
                0
            }),
            final(self).at_return == (ok && !old(self).at_return && old(self).plan@[old(
                self,
            ).at as int].0.ret is Some),
            final(self).at == (if final(self).at_return {
                old(self).at as int
            } else {
                old(self).at + 1
            }),
    {
        assert(self.at < self.plan.len());
        let (probe, _) = self.plan[self.at];
        if ok && !self.at_return {
            self.attached += 1;
            if probe.ret.is_some() {
                self.at_return = true;
                return;
            }
        }
        self.at_return = false;
        self.at += 1;
    }
}

/// How many events are taken from a ring before the next ring gets its turn.
pub const DRAIN_BATCH_LIMIT: usize = 1024;

/// Whether another event is taken from a ring that has given so many in its turn. The limit
/// keeps a busy ring from holding up a stop.
pub fn may_take_event(taken: usize) -> (r: bool)
    ensures
        r == (taken < DRAIN_BATCH_LIMIT),
{
    taken < DRAIN_BATCH_LIMIT
}

// ---------------------------------------------------------------------------
// Messages and assets
// ---------------------------------------------------------------------------

/// The type information that is loaded where the kernel has none of its own: Rockchip
/// kernels have their own file.
pub fn btf_asset(release: &str) -> (r: &'static str)
    ensures
        r@ == (if contains_text(release@, "rockchip"@) {
            "rock5b-5.10-arm64_min.btf"@
        } else {
            "a12-5.10-arm64_min.btf"@
        }),
{
    if contains(chars_of(release).as_slice(), chars_of("rockchip").as_slice()) {
        "rock5b-5.10-arm64_min.btf"
    } else {
        "a12-5.10-arm64_min.btf"
    }
}

/// The line that reports a hook point, behind a mark where `marked` is set.
pub open spec fn target_text(name: Seq<char>, target: Option<ResolvedTarget>, marked: bool) -> Seq<
    char,
> {
    match target {
        Some(t) => (if marked {
            "[+] "@
        } else {
            ""@
        }) + name + ": 0x"@ + hex_text(t.addr as nat) + " ("@ + t.source.text() + ")"@,
        None => (if marked {
            "[-] "@
        } else {
            ""@
        }) + name + ": not found"@,
    }
}

/// The line that reports a hook point, behind a mark where `marked` is set.
pub fn target_line(name: &str, target: Option<ResolvedTarget>, marked: bool) -> (r: String)
    ensures
        r@ == target_text(name@, target, marked),
{
    match target {
        Some(t) => {
            let mut r: String = if marked {
                "[+] ".to_owned()
            } else {
                "".to_owned()
            };
            r.append(name);
            r.append(": 0x");
            push_hex(&mut r, t.addr);
            r.append(" (");
            r.append(t.source.label());
            r.append(")");
            r
        },
        None => {
            let mut r: String = if marked {
                "[-] ".to_owned()
            } else {
                "".to_owned()
            };
            r.append(name);
            r.append(": not found");
            r
        },
    }
}

/// The lines that report all hook points.
pub open spec fn target_texts(t: TargetsText, life: LifecycleTargets, marked: bool) -> Seq<Seq<char>> {
    seq![
        target_text("Execute"@, t.execute, marked),
        target_text("ExecuteNterpImpl"@, t.execute_nterp, marked),
        target_text("ExecuteNterpWithClinitImpl"@, t.execute_nterp_with_clinit, marked),
        target_text("VerifyClass"@, t.verify_class, marked),
        target_text("DexFile::DexFile"@, life.dex_file_ctor, marked),
        target_text("ClassLinker::RegisterDexFile"@, life.register_dex_file, marked),
    ]
}

/// The lines that report all hook points.
pub fn target_lines(targets: &ArtHookTargets, life: LifecycleTargets, marked: bool) -> (r: Vec<
    String,
>)
    ensures
        string_texts(r@) == target_texts(targets@, life, marked),
{
    let r: Vec<String> = vec![
        target_line("Execute", targets.execute, marked),
        target_line("ExecuteNterpImpl", targets.execute_nterp, marked),
        target_line("ExecuteNterpWithClinitImpl", targets.execute_nterp_with_clinit, marked),
        target_line("VerifyClass", targets.verify_class, marked),
        target_line("DexFile::DexFile", life.dex_file_ctor, marked),
        target_line("ClassLinker::RegisterDexFile", life.register_dex_file, marked),
    ];
    assert(string_texts(r@) =~= target_texts(targets@, life, marked));
    r
}

/// A switch in words.
pub open spec fn switch_text(on: bool) -> Seq<char> {
    if on {
        "enabled"@
    } else {
        "disabled"@
    }
}

fn push_line(lines: &mut Vec<String>, head: &str, tail: &str)
    ensures
        string_texts(final(lines)@) == string_texts(old(lines)@).push(head@ + tail@),
{
    let ghost before = string_texts(lines@);
    let mut line: String = head.to_owned();
    line.append(tail);
    lines.push(line);
    assert(string_texts(lines@) =~= before.push(head@ + tail@));
}

fn switch_label(on: bool) -> (r: &'static str)
    ensures
        r@ == switch_text(on),
{
    if on {
        "enabled"
    } else {
        "disabled"
    }
}

impl DumpConfig {
    /// The lines that report what a dump was started with.
    pub open spec fn settings_text(&self, invokes: nat, layout: ArtRuntimeLayout) -> Seq<Seq<char>> {
        seq![
            "[+] nterp_op_invoke_* pattern targets: "@ + dec_text(invokes),
            "[+] ART runtime layout: "@ + layout.text(),
            "[+] CodeItem fallback: "@ + switch_text(self.code_item_fallback),
            "[+] Native buffer scan: "@ + switch_text(self.native_buffer_scan),
            "[+] Native ELF scan: "@ + (if self.native_elf_scan {
                "enabled (experimental)"@
            } else {
                "disabled"@
            }),
            "[+] Probe mode: "@ + self.probe_mode.text(),
        ]
    }

    /// The lines that report what a dump was started with.
    pub fn settings_lines(&self, invokes: usize, layout: &ArtRuntimeLayout) -> (r: Vec<String>)
        ensures
            string_texts(r@) == self.settings_text(invokes as nat, *layout),
    {
        let mut lines: Vec<String> = Vec::new();
        assert(string_texts(lines@) =~= Seq::<Seq<char>>::empty());
        let mut count: String = String::new();
        push_dec(&mut count, invokes as u64);
        assert(count@ =~= dec_text(invokes as nat));
        push_line(&mut lines, "[+] nterp_op_invoke_* pattern targets: ", count.as_str());
        let summary: String = layout.summary();
        push_line(&mut lines, "[+] ART runtime layout: ", summary.as_str());
        push_line(&mut lines, "[+] CodeItem fallback: ", switch_label(self.code_item_fallback));
        push_line(&mut lines, "[+] Native buffer scan: ", switch_label(self.native_buffer_scan));
        let elf: &'static str = if self.native_elf_scan {
            "enabled (experimental)"
        } else {
            "disabled"
        };
        push_line(&mut lines, "[+] Native ELF scan: ", elf);
        push_line(&mut lines, "[+] Probe mode: ", self.probe_mode.label());
        assert(string_texts(lines@) =~= self.settings_text(invokes as nat, *layout));
        lines
    }
}

// ---------------------------------------------------------------------------
// Laws
// ---------------------------------------------------------------------------

/// In the full mode every hook point that was found is probed: those that run methods must be,
/// the invoke handlers and those on the life of DEX files may fail. Only the latter are probed
/// in the mode for them.
pub proof fn law_found_hook_points_are_probed(t: TargetsText, life: LifecycleTargets, i: int)
    ensures
        ({
            let full = attachments(ProbeMode::Full, t, life);
            let some = attachments(ProbeMode::Lifecycle, t, life);
            &&& t.execute matches Some(x) ==> full.contains(
                Attachment {
                    program: Program::Execute,
                    function: "Execute",
                    addr: x.addr,
                    required: true,
                    counts: true,
                },
            )
            &&& t.execute_nterp matches Some(x) ==> full.contains(
                Attachment {
                    program: Program::ExecuteNterp,
                    function: "ExecuteNterpImpl",
                    addr: x.addr,
                    required: true,
                    counts: true,
                },
            )
            &&& t.execute_nterp_with_clinit matches Some(x) ==> full.contains(
                Attachment {
                    program: Program::ExecuteNterp,
                    function: "ExecuteNterpWithClinitImpl",
                    addr: x.addr,
                    required: true,
                    counts: true,
                },
            )
            &&& 0 <= i < t.nterp_invoke_addrs.len() ==> full.contains(
                Attachment {
                    program: Program::NterpInvoke,
                    function: "nterp_op_invoke_*",
                    addr: t.nterp_invoke_addrs[i].addr,
                    required: false,
                    counts: false,
                },
            )
            &&& life.dex_file_ctor matches Some(x) ==> some.contains(
                Attachment {
                    program: Program::DexFileCtor,
                    function: "DexFile::DexFile",
                    addr: x.addr,
                    required: false,
                    counts: true,
                },
            )
            &&& life.register_dex_file matches Some(x) ==> some.contains(
                Attachment {
                    program: Program::RegisterDexFile,
                    function: "RegisterDexFile",
                    addr: x.addr,
                    required: false,
                    counts: true,
                },
            )
            &&& full.len() == one(t.execute) + one(t.execute_nterp) + one(t.execute_nterp_with_clinit)
                + t.nterp_invoke_addrs.len() + one(life.dex_file_ctor) + one(life.register_dex_file)
            &&& some.len() == one(life.dex_file_ctor) + one(life.register_dex_file)
            &&& attachments(ProbeMode::MapsOnly, t, life).len() == 0
        }),
{
    let full = attachments(ProbeMode::Full, t, life);
    let some = attachments(ProbeMode::Lifecycle, t, life);
    let (a, b, c) = (one(t.execute), one(t.execute_nterp), one(t.execute_nterp_with_clinit));
    let n = t.nterp_invoke_addrs.len() as int;
    if let Some(x) = t.execute {
        assert(full[0].addr == x.addr);
    }
    if let Some(x) = t.execute_nterp {
        assert(full[a].addr == x.addr);
    }
    if let Some(x) = t.execute_nterp_with_clinit {
        assert(full[a + b].addr == x.addr);
    }
    if 0 <= i < n {
        assert(full[a + b + c + i].addr == t.nterp_invoke_addrs[i].addr);
    }
    if let Some(x) = life.dex_file_ctor {
        assert(some[0].addr == x.addr);
    }
    if let Some(x) = life.register_dex_file {
        assert(some[one(life.dex_file_ctor)].addr == x.addr);
    }
}

/// One for a hook point that was found.
pub open spec fn one(target: Option<ResolvedTarget>) -> int {
    if target is Some {
        1
    } else {
        0
    }
}

/// The address of a name is that of the first symbol that defines it, which is its base plus
/// its offset, in 64 bits.
pub proof fn law_first_definition_counts(symbols: Seq<FileSymbolText>, name: Seq<char>, from: int)
    requires
        0 <= from <= symbols.len(),
    ensures
        match definition_in(symbols, name, from) {
            Some(address) => exists|i: int|
                {
                    &&& from <= i < symbols.len()
                    &&& (#[trigger] symbols[i]).defined && symbols[i].name == Some(name)
                    &&& match symbols[i].offset {
                        Some(offset) => address == (symbols[i].base + offset)
                            % 0x1_0000_0000_0000_0000,
                        None => address == 0,
                    }
                    &&& forall|j: int|
                        from <= j < i ==> !((#[trigger] symbols[j]).defined && symbols[j].name == Some(
                            name,
                        ))
                },
            None => forall|j: int|
                from <= j < symbols.len() ==> !((#[trigger] symbols[j]).defined && symbols[j].name
                    == Some(name)),
        },
    decreases symbols.len() - from,
{
    if from < symbols.len() {
        if symbols[from].defined && symbols[from].name == Some(name) {
            assert(symbols[from].defined);
        } else {
            law_first_definition_counts(symbols, name, from + 1);
            if let Some(address) = definition_in(symbols, name, from + 1) {
                let i = choose|i: int|
                    {
                        &&& from + 1 <= i < symbols.len()
                        &&& (#[trigger] symbols[i]).defined && symbols[i].name == Some(name)
                        &&& match symbols[i].offset {
                            Some(offset) => address == (symbols[i].base + offset)
                                % 0x1_0000_0000_0000_0000,
                            None => address == 0,
                        }
                        &&& forall|j: int|
                            from + 1 <= j < i ==> !((#[trigger] symbols[j]).defined
                                && symbols[j].name == Some(name))
                    };
                assert(symbols[i].defined);
            }
        }
    }
}

/// The functions of libc that are probed are those five that the library defines, at the
/// addresses of their first definitions.
pub proof fn law_libc_functions_that_are_probed(bytes: Seq<u8>, n: nat, probe: LibcProbe, addr: u64)
    requires
        n <= 5,
    ensures
        libc_probe_list().len() == 5,
        found_probes(bytes, n).contains((probe, addr)) <==> exists|i: int|
            0 <= i < n && #[trigger] libc_probe_list()[i] == probe && symbol_address(
                bytes,
                probe.symbol@,
            ) == Some(addr),
    decreases n,
{
    if n > 0 {
        law_libc_functions_that_are_probed(bytes, (n - 1) as nat, probe, addr);
        let before = found_probes(bytes, (n - 1) as nat);
        let after = found_probes(bytes, n);
        let last = libc_probe_list()[n - 1];
        if before.contains((probe, addr)) {
            let k = before.index_of((probe, addr));
            assert(after[k] == (probe, addr));
            let i = choose|i: int|
                0 <= i < n - 1 && #[trigger] libc_probe_list()[i] == probe && symbol_address(
                    bytes,
                    probe.symbol@,
                ) == Some(addr);
            assert(libc_probe_list()[i] == probe);
        }
        if last == probe && symbol_address(bytes, probe.symbol@) == Some(addr) {
            assert(after.last() == (probe, addr));
        }
        if after.contains((probe, addr)) && !before.contains((probe, addr)) {
            assert(libc_probe_list()[n - 1] == probe);
        }
    }
}

/// The probes hold a process id in two's complement, and minus one where all processes are
/// meant.
pub proof fn law_process_ids_are_signed(pid: u32)
    ensures
        signed_pid(None) == -1,
        signed_pid(Some(pid)) % 0x1_0000_0000 == pid,
        -0x8000_0000 <= signed_pid(Some(pid)) < 0x8000_0000,
        flag(true) == 1 && flag(false) == 0,
{
}

/// A probe that was attached counts where it is one of those that count; one that was not ends
/// the dump where it is required.
pub proof fn law_required_probes_end_the_dump(
    before: AttachRun,
    ok: bool,
    after: AttachRun,
    r: AttachReport,
)
    requires
        before.tried < before.plan@.len(),
        is_attach_step(before, ok, after, r),
    ensures
        after.plan == before.plan,
        after.tried == before.tried + 1,
        r is Attached <==> ok,
        r is Abort <==> !ok && before.plan@[before.tried as int].required,
        after.attached == before.attached + 1 <==> ok && before.plan@[before.tried as int].counts,
        after.attached == before.attached <==> !(ok && before.plan@[before.tried as int].counts),
{
}

/// A function of libc is first probed at its entry, and then, where that succeeded and there
/// is a program for it, at its return. Whatever came of that, the next function follows. The
/// function counts where its entry is probed.
pub proof fn law_functions_of_libc_are_probed_in_turn(
    first: LibcRun,
    entered: bool,
    second: LibcRun,
    left: bool,
    third: LibcRun,
)
    requires
        first.wf(),
        first.at < first.plan@.len(),
        !first.at_return,
        is_libc_step(first, entered, second),
        is_libc_step(second, left, third),
    ensures
        ({
            let (probe, addr) = first.plan@[first.at as int];
            &&& first.upcoming() == Some(
                LibcAttachment { program: probe.entry, symbol: probe.symbol, addr, at_return: false },
            )
            &&& second.attached == first.attached + (if entered {
                1int
            } else {
                0
            })
            &&& entered ==> (probe.ret matches Some(program) ==> second.upcoming() == Some(
                LibcAttachment { program, symbol: probe.symbol, addr, at_return: true },
            ) && third.at == first.at + 1 && !third.at_return && third.attached == second.attached)
            &&& !(entered && probe.ret is Some) ==> second.at == first.at + 1 && !second.at_return
        }),
{
}

/// Probes are attached in every mode but the one for memory maps, and then only a wanted scan of
/// them is left. Native buffers are probed in the full mode, where either native scan is wanted.
pub proof fn law_course_of_a_dump(c: DumpConfig)
    ensures
        course_of(c) is Probes <==> c.probe_mode is Full || c.probe_mode is Lifecycle,
        course_of(c) is MapsOnly <==> c.probe_mode is MapsOnly && c.maps_scan,
        course_of(c) is Refused <==> c.probe_mode is MapsOnly && !c.maps_scan,
        native_probes_of(c) is Unwanted <==> !c.native_buffer_scan && !c.native_elf_scan,
        native_probes_of(c) is Attach <==> c.probe_mode is Full && (c.native_buffer_scan
            || c.native_elf_scan),
{
}

/// The probes read the user id, the process id, and the switches as one or zero; the one for
/// native buffers is on where either native scan is wanted.
pub proof fn law_settings_of_the_probes(c: DumpConfig, r: BpfConfig)
    requires
        is_bpf_config(c, r),
    ensures
        r.uid == c.uid,
        c.pid is None ==> r.pid == -1,
        c.pid matches Some(pid) ==> (r.pid as int) % 0x1_0000_0000 == pid,
        r.code_item_fallback <= 1 && r.debug_layout <= 1 && r.native_buffer_scan <= 1,
        r.code_item_fallback == 1 <==> c.code_item_fallback,
        r.debug_layout == 1 <==> c.debug_layout,
        r.native_buffer_scan == 0 <==> !c.native_buffer_scan && !c.native_elf_scan,
        r.reserved == 0,
{
}

/// A libc that was given is the only one considered. Otherwise the first of the usual places
/// that has one is taken.
pub proof fn law_which_libc_is_probed(given: Option<bool>, present: Seq<bool>, r: LibcChoice, i: int)
    requires
        is_libc_choice(given, present, r),
    ensures
        r is Given <==> given == Some(true),
        r is GivenMissing <==> given == Some(false),
        given is None && 0 <= i < present.len() && present[i] ==> (r matches LibcChoice::Place(at) && at
            <= i && present[at as int]),
        given is None && (forall|j: int| 0 <= j < present.len() ==> !present[j]) ==> r is Nowhere,
{
}

} // verus!
