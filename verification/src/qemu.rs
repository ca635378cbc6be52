//! Launching the fuzzing workers: their configuration, the QEMU arguments
//! for the host's CPU vendor, and each worker's command line, environment
//! and port.

use vstd::prelude::*;
use vstd::string::*;
use crate::text::{decimal, push_decimal, str_chars};

verus! {

/// The controller's configuration.
#[derive(Clone, Debug, Default)]
pub struct Config {
    pub qemu_path: String,
    pub bzimage_path: String,
    pub image_path: String,
    pub dict_path: String,
    pub procs: usize,
    pub kernel_src_dir: String,
    pub work_dir: String,
    pub agent_dir: String,
    pub corpus_dir: String,
}

/// The CPU vendors whose virtualisation options differ.
pub enum CpuVendor {
    Intel,
    Amd,
}

/// What the CPU description says of the vendor.
pub enum CpuIdentification {
    /// It names `GenuineIntel`.
    GenuineIntel,
    /// It names `AuthenticAMD` and not `GenuineIntel`.
    AuthenticAmd,
    /// It names neither.
    Unrecognised,
}

/// Whether `pat` occurs in `s`.
pub open spec fn contains_text(s: Seq<char>, pat: Seq<char>) -> bool {
    exists|i: int| 0 <= i && i + pat.len() <= s.len() && #[trigger] s.subrange(i, i + pat.len()) == pat
}

/// `pat` is found wherever it occurs in `s`, at any position.
pub proof fn lemma_contains_text_at(s: Seq<char>, pat: Seq<char>, i: int)
    requires
        0 <= i,
        i + pat.len() <= s.len(),
        s.subrange(i, i + pat.len()) == pat,
    ensures
        contains_text(s, pat),
{
    assert(s.subrange(i, i + pat.len()) == pat);
}

/// Text found in `s` is still found after any text `t` is put before `s`,
/// and after any text `u` is put after it.
pub proof fn lemma_contains_text_extend(t: Seq<char>, s: Seq<char>, u: Seq<char>, pat: Seq<char>)
    requires
        contains_text(s, pat),
    ensures
        contains_text(t + s + u, pat),
{
    let i = choose|i: int| 0 <= i && i + pat.len() <= s.len() && #[trigger] s.subrange(i, i + pat.len()) == pat;
    let w = t + s + u;
    let j = t.len() + i;
    assert(w.subrange(j, j + pat.len()) =~= s.subrange(i, i + pat.len()));
    lemma_contains_text_at(w, pat, j);
}

/// Whether `pat` occurs in `s` at position `at`.
fn occurs_at(s: &Vec<char>, pat: &Vec<char>, at: usize) -> (res: bool)
    requires
        at + pat@.len() <= s@.len(),
    ensures
        res == (s@.subrange(at as int, at + pat@.len()) == pat@),
{
    let slen = s.len();
    let mut k: usize = 0;
    while k < pat.len()
        invariant
            k <= pat@.len(),
            slen == s@.len(),
            at + pat@.len() <= s@.len(),
            forall|q: int| 0 <= q < k ==> s@[at + q] == pat@[q],
        decreases pat@.len() - k,
    {
        if s[at + k] != pat[k] {
            assert(s@.subrange(at as int, at + pat@.len())[k as int] != pat@[k as int]);
            return false;
        }
        k = k + 1;
    }
    assert(s@.subrange(at as int, at + pat@.len()) =~= pat@);
    true
}

/// Whether `pat` occurs in `s`.
pub fn find_text(s: &Vec<char>, pat: &Vec<char>) -> (res: bool)
    ensures
        res == contains_text(s@, pat@),
{
    if pat.len() > s.len() {
        return false;
    }
    let last = s.len() - pat.len();
    let mut i: usize = 0;
    while i <= last
        invariant_except_break
            i <= last,
            forall|q: int| 0 <= q < i ==> #[trigger] s@.subrange(q, q + pat@.len()) != pat@,
        invariant
            last == s@.len() - pat@.len(),
            pat@.len() <= s@.len(),
        ensures
            forall|q: int| 0 <= q <= last ==> #[trigger] s@.subrange(q, q + pat@.len()) != pat@,
        decreases last + 1 - i,
    {
        if occurs_at(s, pat, i) {
            return true;
        }
        if i == last {
            break;
        }
        i = i + 1;
    }
    assert(forall|q: int| 0 <= q <= last ==> #[trigger] s@.subrange(q, q + pat@.len()) != pat@);
    false
}

/// Identifies the vendor in the text of `/proc/cpuinfo`.
pub fn identify_cpu(cpuinfo: &str) -> (res: CpuIdentification)
    ensures
        contains_text(cpuinfo@, "GenuineIntel"@) ==> res is GenuineIntel,
        !contains_text(cpuinfo@, "GenuineIntel"@) && contains_text(cpuinfo@, "AuthenticAMD"@) ==> res is AuthenticAmd,
        !contains_text(cpuinfo@, "GenuineIntel"@) && !contains_text(cpuinfo@, "AuthenticAMD"@) ==> res is Unrecognised,
{
    let text = str_chars(cpuinfo);
    let intel = str_chars("GenuineIntel");
    let amd = str_chars("AuthenticAMD");
    if find_text(&text, &intel) {
        CpuIdentification::GenuineIntel
    } else if find_text(&text, &amd) {
        CpuIdentification::AuthenticAmd
    } else {
        CpuIdentification::Unrecognised
    }
}

/// The vendor to configure for: Intel when identified, AMD otherwise (also
/// when the vendor is unrecognised).
pub fn vendor_of(id: &CpuIdentification) -> (res: CpuVendor)
    ensures
        (res is Intel) == (id is GenuineIntel),
{
    match id {
        CpuIdentification::GenuineIntel => CpuVendor::Intel,
        _ => CpuVendor::Amd,
    }
}

/// The vendor's name as the controller reports it: `intel` or `amd`.
pub fn vendor_name(vendor: &CpuVendor) -> (res: String)
    ensures
        res@ == (if vendor is Intel { "intel"@ } else { "amd"@ }),
{
    match vendor {
        CpuVendor::Intel => "intel".to_owned(),
        CpuVendor::Amd => "amd".to_owned(),
    }
}

/// The machine options, up to the kernel image.
pub const QEMU_MACHINE: &'static str = "-cpu host,kvm=on,svm=on -machine q35,vmport=off,smbus=off,acpi=off,usb=off,graphics=off -m 1G -kernel ";

/// The kernel command line for Intel hosts, up to the disk image.
pub const QEMU_APPEND_INTEL: &'static str = " -append 'root=/dev/vda earlyprintk=ttyS0 console=ttyS0 nokaslr silent notsc acpi=off kvm-intel.nested=1 kvm-intel.unrestricted_guest=1 kvm-intel.vmm_exclusive=1 kvm-intel.fasteoi=1 kvm-intel.ept=1 kvm-intel.flexpriority=1 kvm-intel.vpid=1 kvm-intel.emulate_invalid_guest_state=1 kvm-intel.eptad=1 kvm-intel.enable_shadow_vmcs=1 kvm-intel.pml=1 kvm-intel.enable_apicv=1' -drive file=";

/// The kernel command line for AMD hosts, up to the disk image.
pub const QEMU_APPEND_AMD: &'static str = " -append 'root=/dev/vda earlyprintk=ttyS0 console=ttyS0 nokaslr silent notsc acpi=off kvm-amd.nested=1 kvm-amd.npt=1 kvm-amd.avic=1 kvm-amd.vls=1 kvm-amd.sev=0' -drive file=";

/// Between the disk image and the agent directory shared with the guest.
pub const QEMU_SHARE: &'static str = ",id=dr0,format=raw,if=none -virtfs local,path=";

/// The devices and console options after the shared directory.
pub const QEMU_DEVICES: &'static str = ",mount_tag=host0,security_model=none,id=host0,readonly=on -device virtio-blk-pci,drive=dr0 -nographic -accel kvm -nodefaults -drive file=null-co://,if=none,id=nvm  -vga virtio -device megasas,id=scsi0 -device scsi-hd,drive=drive0,bus=scsi0.0,channel=0,scsi-id=0,lun=0 -drive file=null-co://,if=none,id=drive0 -device nvme,serial=deadbeef,drive=nvm -serial none -snapshot -cdrom /dev/null -serial stdio";

/// The QEMU snapshot arguments for a host of `vendor`.
pub open spec fn snap_args(vendor: CpuVendor, bzimage: Seq<char>, image: Seq<char>, agent_dir: Seq<char>) -> Seq<char> {
    QEMU_MACHINE@ + bzimage + (if vendor is Intel { QEMU_APPEND_INTEL@ } else { QEMU_APPEND_AMD@ })
        + image + QEMU_SHARE@ + agent_dir + QEMU_DEVICES@
}

/// The QEMU snapshot arguments for the configured kernel, disk image and
/// agent directory, with the nested-virtualisation options of `vendor`.
pub fn get_qemu_snap_args(config: &Config, vendor: &CpuVendor) -> (res: String)
    ensures
        res@ == snap_args(*vendor, config.bzimage_path@, config.image_path@, config.agent_dir@),
{
    let mut res = QEMU_MACHINE.to_owned();
    res.append(config.bzimage_path.as_str());
    match vendor {
        CpuVendor::Intel => res.append(QEMU_APPEND_INTEL),
        CpuVendor::Amd => res.append(QEMU_APPEND_AMD),
    }
    res.append(config.image_path.as_str());
    res.append(QEMU_SHARE);
    res.append(config.agent_dir.as_str());
    res.append(QEMU_DEVICES);
    res
}

/// The port of the first worker; worker `i` listens on the one `i` above.
pub const SOCKET_PORT_BASE: usize = 8888;

/// The port through which the controller talks to worker `index`.
pub fn worker_port(index: usize) -> (res: usize)
    requires
        index + SOCKET_PORT_BASE <= usize::MAX,
    ensures
        res == SOCKET_PORT_BASE + index,
{
    SOCKET_PORT_BASE + index
}

/// The address the controller listens on for a worker: `127.0.0.1:{port}`.
pub fn listen_address(port: usize) -> (res: String)
    ensures
        res@ == "127.0.0.1:"@ + decimal(port as nat),
{
    let mut res = "127.0.0.1:".to_owned();
    push_decimal(&mut res, port as u64);
    res
}

/// The views of a vector of strings.
pub open spec fn strings_view(v: Seq<String>) -> Seq<Seq<char>> {
    v.map_values(|s: String| s@)
}

/// The fuzzer's options for a worker: resource limits, the dictionary, input
/// length control, reload period, and the corpus directory last.
pub open spec fn fuzzer_args_spec(dict_path: Seq<char>, corpus_dir: Seq<char>) -> Seq<Seq<char>> {
    seq![
        "-rss_limit_mb=8096"@,
        "-use_value_profile=1"@,
        "-detect_leaks=0"@,
        "-dict="@ + dict_path,
        "-len_control=200"@,
        "-reload=60"@,
        corpus_dir,
    ]
}

/// The command-line arguments of a worker's fuzzer process.
pub fn fuzzer_args(config: &Config) -> (res: Vec<String>)
    ensures
        strings_view(res@) == fuzzer_args_spec(config.dict_path@, config.corpus_dir@),
{
    let mut res: Vec<String> = Vec::new();
    res.push("-rss_limit_mb=8096".to_owned());
    res.push("-use_value_profile=1".to_owned());
    res.push("-detect_leaks=0".to_owned());
    let mut dict = "-dict=".to_owned();
    dict.append(config.dict_path.as_str());
    res.push(dict);
    res.push("-len_control=200".to_owned());
    res.push("-reload=60".to_owned());
    res.push(config.corpus_dir.clone());
    assert(strings_view(res@) =~= fuzzer_args_spec(config.dict_path@, config.corpus_dir@));
    res
}

/// The environment of worker `index`: the QEMU arguments, its number, its
/// port, the work directory, and the switches that make it trace and report.
pub open spec fn fuzzer_env_spec(
    qemu_snap_args: Seq<char>,
    index: nat,
    port: nat,
    work_dir: Seq<char>,
) -> Seq<(Seq<char>, Seq<char>)> {
    seq![
        ("QEMU_SNAP_ARGS"@, qemu_snap_args),
        ("FUZZ_ID"@, decimal(index)),
        ("PORT"@, decimal(port)),
        ("WORK_DIR"@, work_dir),
        ("FUZZ_TRACE_PC"@, "1"@),
        ("PRINT_ALL_PCS"@, "1"@),
        ("MUTATE_SYSCALLS"@, "1"@),
        ("PRINT_CRASHES"@, "1"@),
    ]
}

/// The views of a vector of name and value pairs.
pub open spec fn pairs_view(v: Seq<(String, String)>) -> Seq<(Seq<char>, Seq<char>)> {
    v.map_values(|p: (String, String)| (p.0@, p.1@))
}

/// Appends the variable `name` with `value` to `env`.
fn push_var(env: &mut Vec<(String, String)>, name: &str, value: String)
    ensures
        pairs_view(final(env)@) == pairs_view(old(env)@).push((name@, value@)),
{
    env.push((name.to_owned(), value));
    assert(pairs_view(env@) =~= pairs_view(old(env)@).push((name@, value@)));
}

/// The environment variables of worker `index`'s fuzzer process, in order.
pub fn fuzzer_env(config: &Config, index: usize, qemu_snap_args: &str, port: usize) -> (res: Vec<(String, String)>)
    ensures
        pairs_view(res@) == fuzzer_env_spec(qemu_snap_args@, index as nat, port as nat, config.work_dir@),
{
    let mut env: Vec<(String, String)> = Vec::new();
    assert(pairs_view(env@) =~= Seq::<(Seq<char>, Seq<char>)>::empty());
    push_var(&mut env, "QEMU_SNAP_ARGS", qemu_snap_args.to_owned());
    let mut id = String::new();
    push_decimal(&mut id, index as u64);
    push_var(&mut env, "FUZZ_ID", id);
    let mut p = String::new();
    push_decimal(&mut p, port as u64);
    push_var(&mut env, "PORT", p);
    push_var(&mut env, "WORK_DIR", config.work_dir.clone());
    push_var(&mut env, "FUZZ_TRACE_PC", "1".to_owned());
    push_var(&mut env, "PRINT_ALL_PCS", "1".to_owned());
    push_var(&mut env, "MUTATE_SYSCALLS", "1".to_owned());
    push_var(&mut env, "PRINT_CRASHES", "1".to_owned());
    assert(pairs_view(env@) =~= fuzzer_env_spec(qemu_snap_args@, index as nat, port as nat, config.work_dir@));
    env
}

} // verus!
