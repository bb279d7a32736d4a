use gandr_core_checker::nbe::sem::fold_payload_bytes;
use gandr_core_checker::nbe::sem::mix_str;
use gandr_core_checker::nbe::sem::mix_word;
use gandr_core_checker::nbe::sem::FNV_OFFSET;

#[test]
fn payload_fold_is_fnv1a_over_the_bytes() {
    assert_eq!(fold_payload_bytes(FNV_OFFSET, b""), FNV_OFFSET);
    assert_eq!(fold_payload_bytes(FNV_OFFSET, b"a"), 0xaf63_dc4c_8601_ec8c);
    assert_eq!(fold_payload_bytes(FNV_OFFSET, b"foobar"), 0x8594_4171_f739_67e8);
}

#[test]
fn a_label_folds_each_byte_as_a_word() {
    assert_eq!(mix_str(FNV_OFFSET, "ab"), mix_word(mix_word(FNV_OFFSET, 0x61), 0x62));
    assert_ne!(mix_str(FNV_OFFSET, "ab"), mix_str(FNV_OFFSET, "ba"));
}
