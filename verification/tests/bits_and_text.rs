use logsim::bits::{BitField, ChangedOutputs, TruthTable};
use logsim::debug::{good_debug, Fmtter};
use logsim::files::{Encoding, FileErr};
use logsim::text::{binary_padded, contains, i64_to_decimal, i64_to_hex, is_blank, starts_with};
use logsim::{link_color_of, DeviceInput, LinkTarget};

#[test]
fn bitfield_set_then_get() {
    let mut f = BitField::empty(8);
    f.set(3, true);
    assert!(f.get(3));
    assert!(!f.get(2));
    assert_eq!(f.data, 8);
    f.set(3, false);
    assert_eq!(f.data, 0);
    assert!(!f.any_on());
}

#[test]
fn bitfield_from_bits_and_back() {
    let f = BitField::from_bits(&[1, 0, 1]);
    assert_eq!(f.data, 5);
    assert_eq!(f.len(), 3);
    assert_eq!(f.bits(), vec![true, false, true]);
    assert!(f.any_on());
    let s = BitField::single(1);
    assert_eq!(s.data, 1);
    assert_eq!(s.len(), 1);
}

#[test]
fn truth_table_rows() {
    let t = TruthTable { num_inputs: 2, num_outputs: 1, map: vec![0, 0, 0, 1] };
    assert_eq!(t.get(3).data, 1);
    assert_eq!(t.get(2).data, 0);
    assert_eq!(t.get(3).len(), 1);
}

#[test]
fn truth_table_text() {
    let t = TruthTable { num_inputs: 2, num_outputs: 1, map: vec![0, 0, 0, 1] };
    assert_eq!(t.debug_string(), "TruthTable { 00: \"0\", 01: \"0\", 10: \"0\", 11: \"1\" }");
    let n = TruthTable { num_inputs: 1, num_outputs: 2, map: vec![2, 1] };
    assert_eq!(n.debug_string(), "TruthTable { 0: \"10\", 1: \"01\" }");
    let e = TruthTable { num_inputs: 0, num_outputs: 0, map: vec![] };
    assert_eq!(e.debug_string(), "TruthTable");
}

#[test]
fn changed_outputs_lists_differences_in_order() {
    let prev = BitField::from_parts(0b0101, 4);
    let new = BitField::from_parts(0b0110, 4);
    let mut c = ChangedOutputs::new(prev, new);
    assert_eq!(c.next(), Some((0, false)));
    assert_eq!(c.next(), Some((1, true)));
    assert_eq!(c.next(), None);
    let mut none = ChangedOutputs::none();
    assert_eq!(none.next(), None);
}

#[test]
fn link_colors_from_bytes() {
    assert_eq!(link_color_of(0), 0);
    assert_eq!(link_color_of(128), 3);
    assert_eq!(link_color_of(255), 6);
}

#[test]
fn device_input_as_target() {
    let d = DeviceInput(4u64, 2);
    match d.wrap() {
        LinkTarget::DeviceInput(a, b) => {
            assert_eq!(a, 4);
            assert_eq!(b, 2);
        }
        LinkTarget::Output(_) => panic!("wrong target"),
    }
}

#[test]
fn numbers_as_text() {
    assert_eq!(i64_to_decimal(-42), "-42");
    assert_eq!(i64_to_decimal(0), "0");
    assert_eq!(i64_to_decimal(i64::MIN), "-9223372036854775808");
    assert_eq!(i64_to_hex(255), "FF");
    assert_eq!(i64_to_hex(-1), "FFFFFFFFFFFFFFFF");
    assert_eq!(binary_padded(5, 6), "000101");
    assert_eq!(binary_padded(5, 1), "101");
}

#[test]
fn text_tests() {
    assert!(is_blank(" \t\n"));
    assert!(is_blank(""));
    assert!(!is_blank(" a "));
    assert!(starts_with("Nand", "Na"));
    assert!(!starts_with("Na", "Nand"));
    assert!(contains("Nand", "and"));
    assert!(contains("Nand", ""));
    assert!(!contains("Nand", "or"));
}

#[test]
fn readable_dumps() {
    assert_eq!(good_debug(&true), "true");
    assert_eq!(good_debug(&42u32), "42");
    assert_eq!(good_debug(&vec![1u8, 2u8]), "list\n    1\n    2\n");
    assert_eq!(good_debug(&Vec::<u8>::new()), "list");
    assert_eq!(good_debug(&BitField::from_parts(5, 3)), "BitField\n    len: 3\n    data: 5\n");
    assert_eq!(good_debug(&LinkTarget::DeviceInput(7u64, 1)), "DeviceInput(7, 1)");
    let mut f = Fmtter::new();
    f.indent();
    f.push_indent();
    f.push_str("x");
    f.unindent();
    f.push_field("n", &3usize);
    assert_eq!(f.result, "    xn: 3\n");
}

#[test]
fn file_kinds_and_errors() {
    assert!(Encoding::Ron.file_matches("dir/settings.ron"));
    assert!(!Encoding::Data.file_matches("dir/settings.ron"));
    assert!(Encoding::Data.file_matches("presets/And.data"));
    assert!(!Encoding::Data.file_matches("presets/.."));
    assert!(Encoding::Data.file_matches("presets/And.data/."));
    let e = FileErr::io("a/b", "NotFound");
    assert!(e.not_found());
    assert_eq!(e.msg(), "NotFound");
    let e = FileErr::io("a/b", "PermissionDenied").context("Failed to load");
    assert!(!e.not_found());
    assert_eq!(e.msg(), "Failed to load : PermissionDenied");
    assert_eq!(e.path(), "a/b");
    let e = FileErr::new("x", "Invalid RON");
    assert_eq!(e.msg(), "\"Invalid RON\"");
}
