use std::collections::HashSet;

use fuzz_web::coverage::{format_coverage_record, merge_covered_lines};
use fuzz_web::lines::source_lines;
use fuzz_web::locations::parse_source_location;
use fuzz_web::paths::{
    combined_report_path, coverage_html_dir, coverage_record_path, index_page_path, page_file_name,
    page_file_path, source_file_path, worker_dir, worker_log_path,
};
use fuzz_web::pcs::{batch_length, check_batch_length, record_pcs, BatchLength, NEED_COVERAGE_COMMAND};
use fuzz_web::qemu::{
    fuzzer_args, fuzzer_env, get_qemu_snap_args, identify_cpu, listen_address, vendor_name, vendor_of,
    worker_port, Config, CpuIdentification, CpuVendor,
};
use fuzz_web::text::decimal_string;

fn lines_of(s: &str) -> Vec<String> {
    let chars: Vec<char> = s.chars().collect();
    source_lines(&chars).into_iter().map(|l| l.into_iter().collect()).collect()
}

#[test]
fn lines_split_like_str_lines() {
    for text in ["", "a", "a\n", "a\nb", "a\r\nb\r\n", "\n\n", "x\r", "\r\n", "a\rb\n", "one\ntwo\r\nthree"] {
        let expected: Vec<String> = text.lines().map(|l| l.to_string()).collect();
        assert_eq!(lines_of(text), expected, "text {:?}", text);
    }
}

#[test]
fn decimal_numbers() {
    assert_eq!(decimal_string(0), "0");
    assert_eq!(decimal_string(7), "7");
    assert_eq!(decimal_string(1200), "1200");
    assert_eq!(decimal_string(u64::MAX), "18446744073709551615");
}

#[test]
fn report_paths() {
    assert_eq!(coverage_html_dir("/w"), "/w/coverage_html");
    assert_eq!(index_page_path("/w/coverage_html"), "/w/coverage_html/index.html");
    assert_eq!(source_file_path("/k", "fs/ext4/inode.c"), "/k/fs/ext4/inode.c");
    assert_eq!(page_file_name("fs/ext4/inode.c"), "fs_ext4_inode.c.html");
    assert_eq!(page_file_path("/w/coverage_html", "a/b.c"), "/w/coverage_html/a_b.c.html");
    assert_eq!(coverage_record_path("/w"), "/w/coverage.txt");
    assert_eq!(combined_report_path("/w"), "/w/coverage_report.html");
    assert_eq!(worker_dir("/w", 3), "/w/fuzz_3");
    assert_eq!(worker_log_path("/w/fuzz_3", 3), "/w/fuzz_3/log_3");
}

#[test]
fn batch_lengths() {
    assert_eq!(batch_length(&[16, 0, 0, 0, 0, 0, 0, 0]), 16);
    assert_eq!(batch_length(&[0, 1, 0, 0, 0, 0, 0, 0]), 256);
    assert_eq!(batch_length(&[0xff; 8]), u64::MAX);
    assert_eq!(batch_length(&[1, 2, 3, 4, 5, 6, 7, 8]), u64::from_le_bytes([1, 2, 3, 4, 5, 6, 7, 8]));
    assert!(matches!(check_batch_length(0), BatchLength::Empty));
    assert!(matches!(check_batch_length(12), BatchLength::Invalid));
    assert!(matches!(check_batch_length(24), BatchLength::Pcs(24)));
    assert_eq!(NEED_COVERAGE_COMMAND, 0x66);
}

fn le_bytes(values: &[u64]) -> Vec<u8> {
    values.iter().flat_map(|v| v.to_le_bytes()).collect()
}

#[test]
fn pcs_are_recorded_once() {
    let mut pcs: HashSet<u64> = HashSet::new();
    pcs.insert(0x10);
    let mut new_pcs = Vec::new();
    let data = le_bytes(&[0xffffffff81000000, 0x10, 0x20, 0xffffffff81000000, 0x30]);
    record_pcs(&mut pcs, &data, &mut new_pcs);
    assert_eq!(new_pcs, vec![0xffffffff81000000, 0x20, 0x30]);
    assert_eq!(pcs.len(), 4);
    // The same batch again brings nothing new.
    let mut again = Vec::new();
    record_pcs(&mut pcs, &data, &mut again);
    assert!(again.is_empty());
    assert_eq!(pcs.len(), 4);
}

#[test]
fn covered_lines_merge_and_records() {
    let mut covered: HashSet<u32> = HashSet::new();
    covered.insert(3);
    let records = merge_covered_lines(&mut covered, "mm/slab.c", &vec![3, 12, 12]);
    assert_eq!(records, vec!["mm/slab.c:3\n", "mm/slab.c:12\n", "mm/slab.c:12\n"]);
    assert_eq!(covered.len(), 2);
    assert!(covered.contains(&12));
    assert_eq!(format_coverage_record("a.c", 0), "a.c:0\n");
}

#[test]
fn cpu_vendor_identification() {
    assert!(matches!(identify_cpu("vendor_id\t: GenuineIntel\nflags: vmx"), CpuIdentification::GenuineIntel));
    assert!(matches!(identify_cpu("vendor_id\t: AuthenticAMD\n"), CpuIdentification::AuthenticAmd));
    assert!(matches!(identify_cpu("AuthenticAMD GenuineIntel"), CpuIdentification::GenuineIntel));
    assert!(matches!(identify_cpu("vendor_id : HygonGenuine"), CpuIdentification::Unrecognised));
    assert!(matches!(identify_cpu(""), CpuIdentification::Unrecognised));
    assert!(matches!(vendor_of(&CpuIdentification::Unrecognised), CpuVendor::Amd));
    assert!(matches!(vendor_of(&CpuIdentification::GenuineIntel), CpuVendor::Intel));
    assert_eq!(vendor_name(&CpuVendor::Intel), "intel");
    assert_eq!(vendor_name(&CpuVendor::Amd), "amd");
}

fn sample_config() -> Config {
    Config {
        qemu_path: "/q/qemu".to_string(),
        bzimage_path: "/k/bzImage".to_string(),
        image_path: "/i/disk.img".to_string(),
        dict_path: "/d/kvm.dict".to_string(),
        procs: 2,
        kernel_src_dir: "/k".to_string(),
        work_dir: "/w".to_string(),
        agent_dir: "/a".to_string(),
        corpus_dir: "/c".to_string(),
    }
}

#[test]
fn qemu_snapshot_arguments() {
    let config = sample_config();
    let intel = get_qemu_snap_args(&config, &CpuVendor::Intel);
    let expected_intel = format!("-cpu host,kvm=on,svm=on \
            -machine q35,vmport=off,smbus=off,acpi=off,usb=off,graphics=off -m 1G \
            -kernel {} \
            -append 'root=/dev/vda earlyprintk=ttyS0 console=ttyS0 nokaslr silent notsc acpi=off \
            kvm-intel.nested=1 kvm-intel.unrestricted_guest=1 kvm-intel.vmm_exclusive=1 kvm-intel.fasteoi=1 \
            kvm-intel.ept=1 kvm-intel.flexpriority=1 kvm-intel.vpid=1 kvm-intel.emulate_invalid_guest_state=1 \
            kvm-intel.eptad=1 kvm-intel.enable_shadow_vmcs=1 kvm-intel.pml=1 kvm-intel.enable_apicv=1' \
            -drive file={},id=dr0,format=raw,if=none \
            -virtfs local,path={},mount_tag=host0,security_model=none,id=host0,readonly=on \
            -device virtio-blk-pci,drive=dr0 \
            -nographic -accel kvm -nodefaults \
            -drive file=null-co://,if=none,id=nvm  -vga virtio \
            -device megasas,id=scsi0 \
            -device scsi-hd,drive=drive0,bus=scsi0.0,channel=0,scsi-id=0,lun=0 \
            -drive file=null-co://,if=none,id=drive0 \
            -device nvme,serial=deadbeef,drive=nvm \
            -serial none -snapshot -cdrom /dev/null -serial stdio",
            &config.bzimage_path,
            &config.image_path,
            &config.agent_dir);
    assert_eq!(intel, expected_intel);
    let amd = get_qemu_snap_args(&config, &CpuVendor::Amd);
    let expected_amd = format!("-cpu host,kvm=on,svm=on \
        -machine q35,vmport=off,smbus=off,acpi=off,usb=off,graphics=off -m 1G \
        -kernel {} \
        -append 'root=/dev/vda earlyprintk=ttyS0 console=ttyS0 nokaslr silent notsc acpi=off \
        kvm-amd.nested=1 kvm-amd.npt=1 kvm-amd.avic=1 kvm-amd.vls=1 kvm-amd.sev=0' \
        -drive file={},id=dr0,format=raw,if=none \
        -virtfs local,path={},mount_tag=host0,security_model=none,id=host0,readonly=on \
        -device virtio-blk-pci,drive=dr0 \
        -nographic -accel kvm -nodefaults \
        -drive file=null-co://,if=none,id=nvm  -vga virtio \
        -device megasas,id=scsi0 \
        -device scsi-hd,drive=drive0,bus=scsi0.0,channel=0,scsi-id=0,lun=0 \
        -drive file=null-co://,if=none,id=drive0 \
        -device nvme,serial=deadbeef,drive=nvm \
        -serial none -snapshot -cdrom /dev/null -serial stdio",
        &config.bzimage_path,
        &config.image_path,
        &config.agent_dir);
    assert_eq!(amd, expected_amd);
}

#[test]
fn worker_launch_plan() {
    let config = sample_config();
    assert_eq!(worker_port(0), 8888);
    assert_eq!(worker_port(5), 8893);
    assert_eq!(listen_address(8889), "127.0.0.1:8889");
    assert_eq!(
        fuzzer_args(&config),
        vec!["-rss_limit_mb=8096", "-use_value_profile=1", "-detect_leaks=0", "-dict=/d/kvm.dict", "-len_control=200", "-reload=60", "/c"]
    );
    let env = fuzzer_env(&config, 1, "ARGS", 8889);
    let expected: Vec<(String, String)> = [
        ("QEMU_SNAP_ARGS", "ARGS"),
        ("FUZZ_ID", "1"),
        ("PORT", "8889"),
        ("WORK_DIR", "/w"),
        ("FUZZ_TRACE_PC", "1"),
        ("PRINT_ALL_PCS", "1"),
        ("MUTATE_SYSCALLS", "1"),
        ("PRINT_CRASHES", "1"),
    ]
    .iter()
    .map(|(a, b)| (a.to_string(), b.to_string()))
    .collect();
    assert_eq!(env, expected);
}

#[test]
fn addr2line_locations() {
    assert_eq!(parse_source_location("/k/fs/ext4/inode.c:120", "/k"), Some(("fs/ext4/inode.c".to_string(), 120)));
    assert_eq!(parse_source_location("/k/mm/slab.c:7 (discriminator 2)", "/k"), Some(("mm/slab.c".to_string(), 7)));
    assert_eq!(parse_source_location("/other/x.c:5", "/k"), Some(("/other/x.c".to_string(), 5)));
    assert_eq!(parse_source_location("/kernel/x.c:5", "/k"), Some(("/kernel/x.c".to_string(), 5)));
    assert_eq!(parse_source_location("??:0", "/k"), None);
    assert_eq!(parse_source_location("??:?", "/k"), None);
    assert_eq!(parse_source_location("/k/a.c:0", "/k"), None);
    assert_eq!(parse_source_location("/k/a.c:4294967296", "/k"), None);
    assert_eq!(parse_source_location("/k/a.c:4294967295", "/k"), Some(("a.c".to_string(), 4294967295)));
    assert_eq!(parse_source_location("no colon", "/k"), None);
    assert_eq!(parse_source_location("??:12", "/k"), None);
}

#[test]
fn trailing_partial_counter_is_not_read() {
    let mut pcs: HashSet<u64> = HashSet::new();
    let mut new_pcs = Vec::new();
    let mut data = le_bytes(&[7]);
    data.extend_from_slice(&[1, 2, 3]);
    record_pcs(&mut pcs, &data, &mut new_pcs);
    assert_eq!(new_pcs, vec![7]);
    assert_eq!(pcs.len(), 1);
}
